//! An event that any number of handlers can be attached to.
//!
//! Handlers are registered under integer handles, deregistered by handle, and
//! called one after another, in ascending handle order, when the event fires.
//! Handles come from a `slab::Slab`, so a handle that was released is the next
//! one to be given out again.

pub mod event;
pub mod handler;
pub mod registry;
pub mod slots;

pub use event::Event;
pub use handler::EventHandler;
pub use registry::Registry;
