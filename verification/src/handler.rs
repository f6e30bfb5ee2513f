//! Handlers: callables of one argument, the event's payload, stored behind a
//! trait object so that closures of different types share one registry.

use vstd::prelude::*;

verus! {

/// What the registry needs of a stored callable: it can be run on a payload,
/// and its precondition and its effect can be named in contracts.
pub(crate) trait Callback<TEventArgs> {
    /// The payloads on which the callable may be run.
    spec fn accepts(&self, arg: &TEventArgs) -> bool;

    /// What holds once the callable has returned from a run on `arg`.
    spec fn handled(&self, arg: &TEventArgs) -> bool;

    /// Runs the callable on `arg`.
    fn handle(&self, arg: &TEventArgs)
        requires
            self.accepts(arg),
        ensures
            self.handled(arg),
    ;
}

impl<TEventArgs, F: Fn(&TEventArgs)> Callback<TEventArgs> for F {
    open spec fn accepts(&self, arg: &TEventArgs) -> bool {
        call_requires(*self, (arg,))
    }

    open spec fn handled(&self, arg: &TEventArgs) -> bool {
        call_ensures(*self, (arg,), ())
    }

    fn handle(&self, arg: &TEventArgs) {
        self(arg)
    }
}

/// A handler as the registry stores it: a boxed callable that takes a
/// reference to the event arguments and returns nothing.
#[verifier::reject_recursive_types(TEventArgs)]
pub struct EventHandler<'a, TEventArgs> {
    callback: Box<dyn Callback<TEventArgs> + 'a>,
}

impl<'a, TEventArgs> EventHandler<'a, TEventArgs> {
    /// The stored form of the callable `f`.
    pub closed spec fn of<F: Fn(&TEventArgs) + 'a>(f: F) -> Self {
        EventHandler { callback: Box::new(f) }
    }

    /// The payloads on which this handler may be called.
    pub closed spec fn accepts(&self, arg: &TEventArgs) -> bool {
        self.callback.accepts(arg)
    }

    /// What holds once this handler has returned from a call on `arg`.
    pub closed spec fn handled(&self, arg: &TEventArgs) -> bool {
        self.callback.handled(arg)
    }

    /// Boxing a callable changes neither what it accepts nor what a call of it
    /// establishes.
    pub proof fn lemma_of_behaves_as<F: Fn(&TEventArgs) + 'a>(f: F)
        ensures
            forall|arg: &TEventArgs| #[trigger]
                Self::of(f).accepts(arg) == call_requires(f, (arg,)),
            forall|arg: &TEventArgs| #[trigger]
                Self::of(f).handled(arg) == call_ensures(f, (arg,), ()),
    {
    }

    /// Boxes the callable `f`.
    pub(crate) fn new<F: Fn(&TEventArgs) + 'a>(f: F) -> (handler: Self)
        ensures
            handler == Self::of(f),
    {
        EventHandler { callback: Box::new(f) }
    }

    /// Calls the handler on `arg`.
    pub(crate) fn handle(&self, arg: &TEventArgs)
        requires
            self.accepts(arg),
        ensures
            self.handled(arg),
    {
        self.callback.handle(arg)
    }
}

} // verus!
