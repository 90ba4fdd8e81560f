//! Tiny in-process publish/subscribe for agent loop events.
//!
//! Producers emit events by name; subscribers register a handler for the
//! name they care about, or for the firehose name [`WILDCARD`] to see
//! every event. Dispatch runs the exact-name handlers first and then the
//! firehose handlers, each group in registration order. One-shot handlers
//! are removed once they have been dispatched, whether or not they failed.

pub mod event;
pub mod model;
pub mod bus;
pub mod laws;

pub use bus::EventBus;
pub use event::{Event, Subscription, WILDCARD};
