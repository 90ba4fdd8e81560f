//! The values that travel through the bus: events and subscription handles.

use serde_json::Value;
use vstd::prelude::*;

verus! {

/// The JSON payload type of an event; the bus carries it and never looks inside.
#[verifier::external_type_specification]
#[verifier::external_body]
pub struct ExValue(Value);

/// `serde_json::Value::clone` (derived by serde_json): copies a payload.
/// Nothing is claimed of the copy; the bus never inspects payloads.
pub assume_specification[ <Value as Clone>::clone ](v: &Value) -> Value;

/// Event name that matches every emit (the firehose).
pub const WILDCARD: &'static str = "*";

/// What a subscription handle stands for: its id and the event name it
/// was registered against.
pub struct SubscriptionView {
    pub id: u64,
    pub event: Seq<char>,
}

/// Opaque handle returned when a handler is registered; pass it back to
/// remove that handler.
#[derive(Debug, PartialEq, Eq, Hash)]
pub struct Subscription {
    id: u64,
    event: String,
}

impl View for Subscription {
    type V = SubscriptionView;

    closed spec fn view(&self) -> SubscriptionView {
        SubscriptionView { id: self.id, event: self.event@ }
    }
}

impl Subscription {
    pub(crate) fn new(id: u64, event: String) -> (s: Subscription)
        ensures
            s@ == (SubscriptionView { id: id, event: event@ }),
    {
        Subscription { id, event }
    }

    /// The id assigned at registration time.
    pub fn id(&self) -> (r: u64)
        ensures
            r == self@.id,
    {
        self.id
    }

    /// The event name this subscription was registered against
    /// (the wildcard for the firehose).
    pub fn event(&self) -> (r: &str)
        ensures
            r@ == self@.event,
    {
        self.event.as_str()
    }
}

impl Clone for Subscription {
    /// A second handle for the same subscription.
    fn clone(&self) -> (s: Self)
        ensures
            s@ == self@,
    {
        Subscription { id: self.id, event: self.event.clone() }
    }
}

/// A dispatched event: its name and its JSON payload.
#[derive(Debug, Clone)]
pub struct Event {
    /// The event name given to `emit`.
    pub name: String,
    /// The JSON payload given to `emit`.
    pub payload: Value,
}

} // verus!
