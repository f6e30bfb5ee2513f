//! The mathematical model of a handler registry: slots that hold a handler or
//! are vacant, and the stack of vacant slots from which handles are reused.
//!
//! Every contract of [`crate::Event`] is stated over this model, and the laws
//! that relate its operations to one another are proved here.

use vstd::prelude::*;

verus! {

/// A registry of handlers of type `H`, keyed by handle.
///
/// A handle is the index of a slot. `cells[h]` is the handler registered under
/// `h`, or `None` while slot `h` is vacant. `free` lists the vacant slots in
/// the order in which they were vacated: the last one is the first to be used
/// again.
#[verifier::ext_equal]
pub struct Registry<H> {
    pub cells: Seq<Option<H>>,
    pub free: Seq<int>,
}

/// The numbers below `n`, smallest first.
pub open spec fn indices(n: nat) -> Seq<int> {
    Seq::new(n, |k: int| k)
}

/// Each element is smaller than all that follow it.
pub open spec fn ascending(s: Seq<int>) -> bool {
    forall|i: int, j: int| 0 <= i < j < s.len() ==> s[i] < s[j]
}

impl<H> Registry<H> {
    /// The registry without slots.
    pub open spec fn empty() -> Self {
        Registry { cells: Seq::empty(), free: Seq::empty() }
    }

    /// The free stack names each vacant slot, once, and nothing else.
    pub open spec fn wf(self) -> bool {
        &&& self.free.no_duplicates()
        &&& forall|i: int|
            0 <= i < self.free.len() ==> {
                &&& 0 <= #[trigger] self.free[i] < self.cells.len()
                &&& self.cells[self.free[i]].is_none()
            }
        &&& forall|k: int|
            0 <= k < self.cells.len() && (#[trigger] self.cells[k]).is_none()
                ==> self.free.contains(k)
    }

    /// A handler is registered under `handle`.
    pub open spec fn is_live(self, handle: int) -> bool {
        0 <= handle < self.cells.len() && self.cells[handle].is_some()
    }

    /// The handler registered under `handle`.
    pub open spec fn handler(self, handle: int) -> H
        recommends
            self.is_live(handle),
    {
        self.cells[handle].unwrap()
    }

    /// The registered handlers by handle.
    pub open spec fn live(self) -> Map<int, H> {
        Map::new(|handle: int| self.is_live(handle), |handle: int| self.handler(handle))
    }

    /// For each slot, whether it holds a handler.
    pub open spec fn occupancy(self) -> Seq<bool> {
        Seq::new(self.cells.len(), |k: int| self.cells[k].is_some())
    }

    /// The handle that the next registration gets: the slot vacated last, or a
    /// new slot behind the others if none is vacant.
    pub open spec fn next_handle(self) -> int {
        if self.free.len() > 0 {
            self.free.last()
        } else {
            self.cells.len() as int
        }
    }

    /// The registry after `handler` has been registered under `next_handle()`.
    pub open spec fn insert(self, handler: H) -> Self {
        if self.free.len() > 0 {
            Registry {
                cells: self.cells.update(self.free.last(), Some(handler)),
                free: self.free.drop_last(),
            }
        } else {
            Registry { cells: self.cells.push(Some(handler)), free: self.free }
        }
    }

    /// The registry after `handle` has been deregistered: unchanged unless a
    /// handler is registered under it.
    pub open spec fn remove(self, handle: int) -> Self {
        if self.is_live(handle) {
            Registry { cells: self.cells.update(handle, None), free: self.free.push(handle) }
        } else {
            self
        }
    }

    /// The registry after the handlers of `handlers` have been registered one
    /// after another, the first one first.
    pub open spec fn insert_all(self, handlers: Seq<H>) -> Self
        decreases handlers.len(),
    {
        if handlers.len() == 0 {
            self
        } else {
            self.insert_all(handlers.drop_last()).insert(handlers.last())
        }
    }

    /// The handles that the registrations of `insert_all` return, in the same
    /// order.
    pub open spec fn handles_of_all(self, handlers: Seq<H>) -> Seq<int>
        decreases handlers.len(),
    {
        if handlers.len() == 0 {
            Seq::empty()
        } else {
            self.handles_of_all(handlers.drop_last()).push(
                self.insert_all(handlers.drop_last()).next_handle(),
            )
        }
    }

    /// The live handles among the first `n` slots, smallest first.
    pub open spec fn order_below(self, n: nat) -> Seq<int> {
        indices(n).filter(|handle: int| self.is_live(handle))
    }

    /// The order in which the handlers are called when the event fires: the
    /// live handles, smallest first.
    pub open spec fn order(self) -> Seq<int> {
        self.order_below(self.cells.len())
    }

    /// The empty registry is well formed, holds no handler, and gives out
    /// handle 0 first.
    pub proof fn lemma_empty()
        ensures
            Self::empty().wf(),
            Self::empty().live() == Map::<int, H>::empty(),
            Self::empty().order() == Seq::<int>::empty(),
            Self::empty().next_handle() == 0,
            forall|handle: int| !Self::empty().is_live(handle),
    {
        assert(Self::empty().live() =~= Map::<int, H>::empty());
    }

    /// A registration keeps the registry well formed. Its handle was not live
    /// before; afterwards it is live and stands for the new handler, and every
    /// other handle stands for what it stood for.
    pub proof fn lemma_insert(self, handler: H)
        requires
            self.wf(),
        ensures
            self.insert(handler).wf(),
            0 <= self.next_handle() <= self.cells.len(),
            !self.is_live(self.next_handle()),
            self.insert(handler).is_live(self.next_handle()),
            self.insert(handler).handler(self.next_handle()) == handler,
            self.insert(handler).live() == self.live().insert(self.next_handle(), handler),
    {
        let after = self.insert(handler);
        let handle = self.next_handle();
        if self.free.len() > 0 {
            let top = self.free.len() - 1;
            assert(self.free[top] == handle);
            assert forall|k: int|
                0 <= k < after.cells.len() && (#[trigger] after.cells[k]).is_none()
            implies after.free.contains(k) by {
                assert(self.cells[k].is_none());
                let i = choose|i: int| 0 <= i < self.free.len() && self.free[i] == k;
                assert(i != top);
                assert(after.free[i] == k);
            }
        } else {
            assert forall|k: int| 0 <= k < self.cells.len() implies (#[trigger] self.cells[k]).is_some() by {
                if self.cells[k].is_none() {
                    assert(self.free.contains(k));
                }
            }
        }
        assert(after.live() =~= self.live().insert(handle, handler));
    }

    /// A deregistration keeps the registry well formed and takes exactly the
    /// given handle out of the live ones.
    pub proof fn lemma_remove(self, handle: int)
        requires
            self.wf(),
        ensures
            self.remove(handle).wf(),
            !self.remove(handle).is_live(handle),
            self.remove(handle).live() == self.live().remove(handle),
    {
        let after = self.remove(handle);
        if self.is_live(handle) {
            assert forall|k: int|
                0 <= k < after.cells.len() && (#[trigger] after.cells[k]).is_none()
            implies after.free.contains(k) by {
                if k == handle {
                    assert(after.free[self.free.len() as int] == k);
                } else {
                    assert(self.cells[k].is_none());
                    let i = choose|i: int| 0 <= i < self.free.len() && self.free[i] == k;
                    assert(after.free[i] == k);
                }
            }
        }
        assert(after.live() =~= self.live().remove(handle));
    }

    /// The handle that a registration returns identifies that handler and no
    /// other: deregistering it at once gives back the handlers that were
    /// registered before, while deregistering any other handle leaves the new
    /// handler registered.
    pub proof fn lemma_handle_round_trip(self, handler: H, other: int)
        requires
            self.wf(),
        ensures
            self.insert(handler).remove(self.next_handle()).live() == self.live(),
            !self.insert(handler).remove(self.next_handle()).is_live(self.next_handle()),
            other != self.next_handle() ==> {
                &&& self.insert(handler).remove(other).is_live(self.next_handle())
                &&& self.insert(handler).remove(other).handler(self.next_handle()) == handler
            },
    {
        self.lemma_insert(handler);
        self.insert(handler).lemma_remove(self.next_handle());
        assert(self.live().insert(self.next_handle(), handler).remove(self.next_handle())
            =~= self.live());
    }

    /// A handler that is deregistered right after its registration is not
    /// called when the event fires.
    pub proof fn lemma_removed_is_not_called(self, handler: H)
        requires
            self.wf(),
        ensures
            !self.insert(handler).remove(self.next_handle()).order().contains(self.next_handle()),
            self.insert(handler).remove(self.next_handle()).order() == self.order(),
    {
        let handle = self.next_handle();
        let after = self.insert(handler).remove(handle);
        self.lemma_handle_round_trip(handler, handle);
        self.lemma_order();
        after.lemma_order();
        assert forall|k: int| after.order().contains(k) <==> self.order().contains(k) by {
            assert(after.live().contains_key(k) <==> self.live().contains_key(k));
        }
        lemma_ascending_unique(after.order(), self.order());
    }

    /// Deregistering a handle a second time finds nothing under it and
    /// changes nothing.
    pub proof fn lemma_remove_twice(self, handle: int)
        ensures
            !self.remove(handle).is_live(handle),
            self.remove(handle).remove(handle) == self.remove(handle),
    {
    }

    /// The handle released last is the one given out next.
    pub proof fn lemma_released_handle_is_next(self, handle: int)
        requires
            self.is_live(handle),
        ensures
            self.remove(handle).next_handle() == handle,
    {
    }

    /// The calling order holds each live handle once, smallest first, and
    /// nothing else.
    pub proof fn lemma_order(self)
        ensures
            ascending(self.order()),
            self.order().no_duplicates(),
            forall|handle: int| self.order().contains(handle) <==> self.is_live(handle),
    {
        self.lemma_order_below(self.cells.len());
        assert forall|handle: int| self.order().contains(handle) <==> self.is_live(handle) by {
            if self.order().contains(handle) {
                let i = choose|i: int| 0 <= i < self.order().len() && self.order()[i] == handle;
                assert(self.is_live(self.order()[i]));
            }
        }
    }

    /// `order_below(n)` is ascending and holds exactly the live handles
    /// below `n`.
    proof fn lemma_order_below(self, n: nat)
        ensures
            ascending(self.order_below(n)),
            self.order_below(n).no_duplicates(),
            forall|i: int|
                0 <= i < self.order_below(n).len() ==> {
                    &&& 0 <= #[trigger] self.order_below(n)[i] < n
                    &&& self.is_live(self.order_below(n)[i])
                },
            forall|handle: int|
                0 <= handle < n && self.is_live(handle) ==> self.order_below(n).contains(handle),
        decreases n,
    {
        if n > 0 {
            let m = (n - 1) as nat;
            self.lemma_order_below(m);
            let shorter = self.order_below(m);
            assert(indices(n) =~= indices(m).push(m as int));
            indices(m).lemma_filter_push(m as int, |handle: int| self.is_live(handle));
            assert(self.order_below(n) == if self.is_live(m as int) {
                shorter.push(m as int)
            } else {
                shorter
            });
            assert forall|handle: int| 0 <= handle < n && self.is_live(handle)
            implies self.order_below(n).contains(handle) by {
                if handle < m {
                    let i = choose|i: int| 0 <= i < shorter.len() && shorter[i] == handle;
                    assert(self.order_below(n)[i] == handle);
                } else {
                    assert(self.order_below(n)[shorter.len() as int] == handle);
                }
            }
        }
    }

    /// Whatever lists each live handle, smallest first, and nothing else, is
    /// the calling order.
    pub proof fn lemma_order_is_unique(self, handles: Seq<int>)
        requires
            ascending(handles),
            forall|handle: int| handles.contains(handle) <==> self.is_live(handle),
        ensures
            handles == self.order(),
    {
        self.lemma_order();
        lemma_ascending_unique(handles, self.order());
    }

    /// The calling order depends on nothing but which handles are live: while
    /// no handler is registered or deregistered, the event calls its handlers
    /// in the same order each time it fires.
    pub proof fn lemma_order_is_stable(self, other: Self)
        requires
            forall|handle: int| self.is_live(handle) == other.is_live(handle),
        ensures
            self.order() == other.order(),
    {
        other.lemma_order();
        self.lemma_order_is_unique(other.order());
    }

    /// After any sequence of registrations, each of the new handlers is
    /// registered under a handle of its own, which was not live before, and is
    /// called once when the event fires; the handlers registered before are
    /// still registered under their handles.
    pub proof fn lemma_insert_all(self, handlers: Seq<H>)
        requires
            self.wf(),
        ensures
            self.insert_all(handlers).wf(),
            self.handles_of_all(handlers).len() == handlers.len(),
            self.handles_of_all(handlers).no_duplicates(),
            forall|i: int|
                0 <= i < handlers.len() ==> {
                    let handle = #[trigger] self.handles_of_all(handlers)[i];
                    &&& !self.is_live(handle)
                    &&& self.insert_all(handlers).is_live(handle)
                    &&& self.insert_all(handlers).handler(handle) == handlers[i]
                    &&& self.insert_all(handlers).order().contains(handle)
                },
            forall|handle: int| #[trigger]
                self.is_live(handle) ==> {
                    &&& self.insert_all(handlers).is_live(handle)
                    &&& self.insert_all(handlers).handler(handle) == self.handler(handle)
                },
            self.insert_all(handlers).order().no_duplicates(),
        decreases handlers.len(),
    {
        let after = self.insert_all(handlers);
        let handles = self.handles_of_all(handlers);
        if handlers.len() > 0 {
            let before = self.insert_all(handlers.drop_last());
            let earlier = self.handles_of_all(handlers.drop_last());
            self.lemma_insert_all(handlers.drop_last());
            before.lemma_insert(handlers.last());
            let newest = before.next_handle();
            assert(after.live().contains_key(newest));
            assert forall|i: int| 0 <= i < handlers.len() implies {
                let handle = #[trigger] handles[i];
                &&& !self.is_live(handle)
                &&& after.is_live(handle)
                &&& after.handler(handle) == handlers[i]
            } by {
                if i < earlier.len() {
                    assert(handles[i] == earlier[i]);
                    assert(before.live().contains_key(earlier[i]));
                    assert(after.live().contains_key(earlier[i]));
                    assert(after.live()[earlier[i]] == before.live()[earlier[i]]);
                } else {
                    assert(handles[i] == newest);
                    if self.is_live(newest) {
                        assert(before.is_live(newest));
                    }
                }
            }
            assert forall|handle: int| #[trigger] self.is_live(handle) implies after.is_live(handle)
                && after.handler(handle) == self.handler(handle) by {
                assert(before.live().contains_key(handle));
                assert(after.live().contains_key(handle));
                assert(after.live()[handle] == before.live()[handle]);
            }
            assert forall|i: int, j: int| 0 <= i < j < handles.len() implies handles[i] != handles[j] by {
                if j == earlier.len() {
                    assert(before.is_live(earlier[i]));
                }
            }
        }
        after.lemma_order();
    }

    /// Registrations on an empty registry get the handles 0, 1, 2 and so on,
    /// and the handlers are called in the order of their registration.
    pub proof fn lemma_insert_all_into_empty(handlers: Seq<H>)
        ensures
            Self::empty().insert_all(handlers).cells == handlers.map_values(|handler: H| Some(handler)),
            Self::empty().insert_all(handlers).free == Seq::<int>::empty(),
            Self::empty().handles_of_all(handlers) == indices(handlers.len()),
            Self::empty().insert_all(handlers).order() == indices(handlers.len()),
        decreases handlers.len(),
    {
        let after = Self::empty().insert_all(handlers);
        if handlers.len() > 0 {
            Self::lemma_insert_all_into_empty(handlers.drop_last());
            assert(indices(handlers.len()) =~= indices(handlers.drop_last().len()).push(
                handlers.len() - 1,
            ));
        }
        assert(after.cells =~= handlers.map_values(|handler: H| Some(handler)));
        assert forall|handle: int| indices(handlers.len()).contains(handle) <==> after.is_live(
            handle,
        ) by {
            if after.is_live(handle) {
                assert(indices(handlers.len())[handle] == handle);
            }
        }
        after.lemma_order_is_unique(indices(handlers.len()));
    }
}

/// Two ascending sequences with the same elements are the same sequence.
pub proof fn lemma_ascending_unique(a: Seq<int>, b: Seq<int>)
    requires
        ascending(a),
        ascending(b),
        forall|x: int| a.contains(x) <==> b.contains(x),
    ensures
        a == b,
    decreases a.len(),
{
    if a.len() == 0 {
        if b.len() > 0 {
            assert(b.contains(b[0]));
        }
        assert(a =~= b);
    } else {
        let top = a.last();
        assert(a.contains(top));
        let j = choose|j: int| 0 <= j < b.len() && b[j] == top;
        assert(b.contains(b.last()));
        let i = choose|i: int| 0 <= i < a.len() && a[i] == b.last();
        assert(b.last() == top);
        let a0 = a.drop_last();
        let b0 = b.drop_last();
        assert forall|x: int| a0.contains(x) <==> b0.contains(x) by {
            if a0.contains(x) {
                let i = choose|i: int| 0 <= i < a0.len() && a0[i] == x;
                assert(a[i] == x);
                assert(a.contains(x));
                let j = choose|j: int| 0 <= j < b.len() && b[j] == x;
                assert(j < b.len() - 1);
                assert(b0[j] == x);
            }
            if b0.contains(x) {
                let j = choose|j: int| 0 <= j < b0.len() && b0[j] == x;
                assert(b[j] == x);
                assert(b.contains(x));
                let i = choose|i: int| 0 <= i < a.len() && a[i] == x;
                assert(i < a.len() - 1);
                assert(a0[i] == x);
            }
        }
        lemma_ascending_unique(a0, b0);
        assert(a =~= a0.push(top));
        assert(b =~= b0.push(top));
    }
}

} // verus!
