//! End-to-end coverage of the event bus.
//!
//! Handlers here return `true` when they fail; the runner handed to `emit`
//! passes that verdict back to the bus, which is how a failing (panicking)
//! handler reaches the bus in this crate.

use std::sync::{Arc, Mutex};

use agent_event_bus::{Event, EventBus, Subscription, WILDCARD};
use serde_json::Value;

type Handler = Box<dyn Fn(&Event) -> bool + Send + Sync>;
type OnError = Box<dyn Fn(&Subscription, &Event) + Send + Sync>;
type Bus = EventBus<Handler, OnError>;

// ---------- helpers ----------

fn new_bus() -> Bus {
    EventBus::new()
}

fn emit(bus: &mut Bus, name: &str, payload: Value) -> Event {
    bus.emit(
        name,
        payload,
        (),
        |st: (), h: &Handler, e: &Event| (st, h(e)),
        |st: (), cb: &OnError, s: &Subscription, e: &Event| {
            cb(s, e);
            st
        },
    )
    .0
}

fn ok<F: Fn(&Event) + Send + Sync + 'static>(f: F) -> Handler {
    Box::new(move |e: &Event| {
        f(e);
        false
    })
}

fn failing<F: Fn(&Event) + Send + Sync + 'static>(f: F) -> Handler {
    Box::new(move |e: &Event| {
        f(e);
        true
    })
}

fn noop() -> Handler {
    ok(|_| {})
}

fn make_seen() -> (Arc<Mutex<Vec<String>>>, Handler) {
    let seen = Arc::new(Mutex::new(Vec::<String>::new()));
    let cl = Arc::clone(&seen);
    let handler = ok(move |e: &Event| cl.lock().unwrap().push(e.name.clone()));
    (seen, handler)
}

fn counter() -> (Arc<Mutex<u32>>, Handler) {
    let count = Arc::new(Mutex::new(0u32));
    let cl = Arc::clone(&count);
    (count, ok(move |_| *cl.lock().unwrap() += 1))
}

fn obj(pairs: Vec<(&str, Value)>) -> Value {
    let mut m = serde_json::Map::new();
    for (k, v) in pairs {
        m.insert(k.to_string(), v);
    }
    Value::Object(m)
}

// ---------- registration + emit ----------

#[test]
fn register_then_emit_fires_handler() {
    let mut bus = new_bus();
    let (seen, h) = make_seen();
    bus.on("llm.call.start", h);
    emit(&mut bus, "llm.call.start", obj(vec![("x", Value::from(1))]));
    assert_eq!(seen.lock().unwrap().as_slice(), &["llm.call.start"]);
}

#[test]
fn on_returns_subscription_with_id_and_event() {
    let mut bus = new_bus();
    let sub = bus.on("a", noop());
    assert!(sub.id() > 0);
    assert_eq!(sub.event(), "a");
}

#[test]
fn subscription_ids_are_monotonic() {
    let mut bus = new_bus();
    let s1 = bus.on("a", noop());
    let s2 = bus.on("a", noop());
    let s3 = bus.on("b", noop());
    assert!(s1.id() < s2.id());
    assert!(s2.id() < s3.id());
}

#[test]
fn non_matching_event_does_not_fire() {
    let mut bus = new_bus();
    let (seen, h) = make_seen();
    bus.on("a", h);
    emit(&mut bus, "b", Value::Null);
    assert!(seen.lock().unwrap().is_empty());
}

// ---------- wildcard ----------

#[test]
fn star_wildcard_fires_for_every_event() {
    let mut bus = new_bus();
    let (seen, h) = make_seen();
    bus.on(WILDCARD, h);
    emit(&mut bus, "a", Value::Null);
    emit(&mut bus, "b", Value::Null);
    emit(&mut bus, "c.d.e", Value::Null);
    assert_eq!(seen.lock().unwrap().as_slice(), &["a", "b", "c.d.e"]);
}

#[test]
fn wildcard_const_matches_literal_star() {
    assert_eq!(WILDCARD, "*");
    let mut bus = new_bus();
    let (seen, h) = make_seen();
    bus.on("*", h);
    emit(&mut bus, "anything", Value::Null);
    assert_eq!(seen.lock().unwrap().as_slice(), &["anything"]);
}

#[test]
fn wildcard_and_exact_both_fire() {
    let mut bus = new_bus();
    let order = Arc::new(Mutex::new(Vec::<&'static str>::new()));
    let o1 = Arc::clone(&order);
    let o2 = Arc::clone(&order);
    bus.on("e", ok(move |_| o1.lock().unwrap().push("exact")));
    bus.on("*", ok(move |_| o2.lock().unwrap().push("firehose")));
    emit(&mut bus, "e", Value::Null);
    assert_eq!(order.lock().unwrap().as_slice(), &["exact", "firehose"]);
}

#[test]
fn exact_fires_before_wildcard_even_when_wildcard_registered_first() {
    let mut bus = new_bus();
    let order = Arc::new(Mutex::new(Vec::<&'static str>::new()));
    let o1 = Arc::clone(&order);
    let o2 = Arc::clone(&order);
    bus.on("*", ok(move |_| o1.lock().unwrap().push("firehose")));
    bus.on("e", ok(move |_| o2.lock().unwrap().push("exact")));
    emit(&mut bus, "e", Value::Null);
    assert_eq!(order.lock().unwrap().as_slice(), &["exact", "firehose"]);
}

#[test]
fn emitting_wildcard_name_fires_firehose_handlers_once() {
    let mut bus = new_bus();
    let (count, h) = counter();
    bus.on("*", h);
    emit(&mut bus, "*", Value::Null);
    assert_eq!(*count.lock().unwrap(), 1);
}

// ---------- order ----------

#[test]
fn multiple_handlers_run_in_registration_order() {
    let mut bus = new_bus();
    let seen = Arc::new(Mutex::new(Vec::<&'static str>::new()));
    let s1 = Arc::clone(&seen);
    let s2 = Arc::clone(&seen);
    let s3 = Arc::clone(&seen);
    bus.on("e", ok(move |_| s1.lock().unwrap().push("a")));
    bus.on("e", ok(move |_| s2.lock().unwrap().push("b")));
    bus.on("e", ok(move |_| s3.lock().unwrap().push("c")));
    emit(&mut bus, "e", Value::Null);
    assert_eq!(seen.lock().unwrap().as_slice(), &["a", "b", "c"]);
}

// ---------- on_once ----------

#[test]
fn on_once_fires_exactly_once() {
    let mut bus = new_bus();
    let (count, h) = counter();
    bus.on_once("a", h);
    emit(&mut bus, "a", Value::Null);
    emit(&mut bus, "a", Value::Null);
    emit(&mut bus, "a", Value::Null);
    assert_eq!(*count.lock().unwrap(), 1);
}

#[test]
fn on_once_does_not_affect_regular_handlers() {
    let mut bus = new_bus();
    let (one, h1) = counter();
    let (many, h2) = counter();
    bus.on_once("a", h1);
    bus.on("a", h2);
    emit(&mut bus, "a", Value::Null);
    emit(&mut bus, "a", Value::Null);
    assert_eq!(*one.lock().unwrap(), 1);
    assert_eq!(*many.lock().unwrap(), 2);
}

#[test]
fn on_once_on_wildcard_fires_for_first_event_only() {
    let mut bus = new_bus();
    let (seen, h) = make_seen();
    bus.on_once("*", h);
    emit(&mut bus, "first", Value::Null);
    emit(&mut bus, "second", Value::Null);
    emit(&mut bus, "third", Value::Null);
    assert_eq!(seen.lock().unwrap().as_slice(), &["first"]);
}

// ---------- emit returns ----------

#[test]
fn emit_returns_event() {
    let mut bus = new_bus();
    let evt = emit(&mut bus, "a.b", obj(vec![("hello", Value::from("world"))]));
    assert_eq!(evt.name, "a.b");
    assert_eq!(evt.payload, obj(vec![("hello", Value::from("world"))]));
}

#[test]
fn payload_preserved_in_handler() {
    let mut bus = new_bus();
    let got = Arc::new(Mutex::new(Value::Null));
    let cl = Arc::clone(&got);
    bus.on("e", ok(move |evt| *cl.lock().unwrap() = evt.payload.clone()));
    let payload = || {
        obj(vec![
            ("k", Value::Array(vec![Value::from(1), Value::from(2), Value::from(3)])),
            ("nested", obj(vec![("q", Value::from(true))])),
        ])
    };
    emit(&mut bus, "e", payload());
    assert_eq!(*got.lock().unwrap(), payload());
}

// ---------- off / off_event / off_all ----------

#[test]
fn off_by_subscription_removes_one() {
    let mut bus = new_bus();
    let (seen, h) = make_seen();
    let sub = bus.on("a", h);
    emit(&mut bus, "a", Value::Null);
    assert_eq!(seen.lock().unwrap().len(), 1);
    let removed = bus.off(sub.clone());
    assert!(removed);
    emit(&mut bus, "a", Value::Null);
    assert_eq!(seen.lock().unwrap().len(), 1);
    // off again is no-op
    assert!(!bus.off(sub));
}

#[test]
fn off_does_not_affect_siblings() {
    let mut bus = new_bus();
    let (keep, h) = counter();
    let drop_sub = bus.on("a", noop());
    bus.on("a", h);
    assert!(bus.off(drop_sub));
    emit(&mut bus, "a", Value::Null);
    assert_eq!(*keep.lock().unwrap(), 1);
}

#[test]
fn off_event_removes_all_for_event() {
    let mut bus = new_bus();
    bus.on("a", noop());
    bus.on("a", noop());
    bus.on("a", noop());
    bus.on("b", noop());
    let removed = bus.off_event("a");
    assert_eq!(removed, 3);
    assert_eq!(bus.len(), 1);
    // off_event for unknown returns 0
    assert_eq!(bus.off_event("nope"), 0);
}

#[test]
fn off_all_clears_everything() {
    let mut bus = new_bus();
    bus.on("a", noop());
    bus.on("b", noop());
    bus.on("*", noop());
    assert_eq!(bus.len(), 3);
    let cleared = bus.off_all();
    assert_eq!(cleared, 3);
    assert_eq!(bus.len(), 0);
    assert!(bus.is_empty());
}

// ---------- subscribers / len ----------

#[test]
fn subscribers_filter_by_event() {
    let mut bus = new_bus();
    bus.on("a", noop());
    bus.on("b", noop());
    bus.on("a", noop());
    bus.on("*", noop());

    let a_subs = bus.subscribers(Some("a"));
    assert_eq!(a_subs.len(), 2);
    assert!(a_subs.iter().all(|s| s.event() == "a"));

    let star_subs = bus.subscribers(Some("*"));
    assert_eq!(star_subs.len(), 1);

    let all = bus.subscribers(None);
    assert_eq!(all.len(), 4);
}

#[test]
fn len_tracks_total_subscribers() {
    let mut bus = new_bus();
    assert_eq!(bus.len(), 0);
    let s = bus.on("a", noop());
    assert_eq!(bus.len(), 1);
    bus.on("b", noop());
    assert_eq!(bus.len(), 2);
    bus.off(s);
    assert_eq!(bus.len(), 1);
}

// ---------- emit selectivity ----------

#[test]
fn emit_only_dispatches_matching_handlers() {
    let mut bus = new_bus();
    let (a_fired, ha) = counter();
    let (b_fired, hb) = counter();
    bus.on("a", ha);
    bus.on("b", hb);
    emit(&mut bus, "a", Value::Null);
    assert_eq!(*a_fired.lock().unwrap(), 1);
    assert_eq!(*b_fired.lock().unwrap(), 0);
    emit(&mut bus, "b", Value::Null);
    assert_eq!(*a_fired.lock().unwrap(), 1);
    assert_eq!(*b_fired.lock().unwrap(), 1);
}

// ---------- failure isolation ----------

#[test]
fn panic_in_handler_is_caught_and_other_handlers_continue() {
    let mut bus = new_bus();
    let after = Arc::new(Mutex::new(0u32));
    let a1 = Arc::clone(&after);
    let a2 = Arc::clone(&after);

    bus.on("e", ok(move |_| *a1.lock().unwrap() += 1));
    bus.on("e", failing(|_| {}));
    bus.on("e", ok(move |_| *a2.lock().unwrap() += 1));

    let _ = emit(&mut bus, "e", Value::Null);
    assert_eq!(*after.lock().unwrap(), 2);
}

#[test]
fn panic_does_not_poison_bus() {
    let mut bus = new_bus();
    bus.on("e", failing(|_| {}));
    let _ = emit(&mut bus, "e", Value::Null);
    // Bus should still be usable after the failure.
    let (seen, h) = counter();
    bus.on("e", h);
    let _ = emit(&mut bus, "e", Value::Null);
    assert_eq!(*seen.lock().unwrap(), 1);
}

// ---------- on_error callback ----------

#[test]
fn on_error_invoked_with_subscription_and_event() {
    let mut bus = new_bus();
    let captured: Arc<Mutex<Vec<(Subscription, String)>>> = Arc::new(Mutex::new(Vec::new()));
    let cl = Arc::clone(&captured);
    bus.set_on_error(Box::new(move |sub: &Subscription, evt: &Event| {
        cl.lock().unwrap().push((sub.clone(), evt.name.clone()));
    }));

    let bad = bus.on("e", failing(|_| {}));
    let _ = emit(&mut bus, "e", Value::Null);

    let got = captured.lock().unwrap();
    assert_eq!(got.len(), 1);
    assert_eq!(got[0].0.id(), bad.id());
    assert_eq!(got[0].1, "e");
}

#[test]
fn on_error_not_invoked_when_no_panic() {
    let mut bus = new_bus();
    let calls = Arc::new(Mutex::new(0u32));
    let cl = Arc::clone(&calls);
    bus.set_on_error(Box::new(move |_: &Subscription, _: &Event| *cl.lock().unwrap() += 1));

    bus.on("e", noop());
    let _ = emit(&mut bus, "e", Value::Null);
    assert_eq!(*calls.lock().unwrap(), 0);
}

#[test]
fn on_error_can_be_cleared() {
    let mut bus = new_bus();
    let calls = Arc::new(Mutex::new(0u32));
    let cl = Arc::clone(&calls);
    bus.set_on_error(Box::new(move |_: &Subscription, _: &Event| *cl.lock().unwrap() += 1));
    bus.clear_on_error();
    bus.on("e", failing(|_| {}));
    let _ = emit(&mut bus, "e", Value::Null);
    assert_eq!(*calls.lock().unwrap(), 0);
}

#[test]
fn on_error_fires_per_panicking_handler() {
    let mut bus = new_bus();
    let count = Arc::new(Mutex::new(0u32));
    let cl = Arc::clone(&count);
    bus.set_on_error(Box::new(move |_: &Subscription, _: &Event| *cl.lock().unwrap() += 1));

    bus.on("e", failing(|_| {}));
    bus.on("e", noop());
    bus.on("e", failing(|_| {}));

    let _ = emit(&mut bus, "e", Value::Null);
    assert_eq!(*count.lock().unwrap(), 2);
}

// ---------- failing on_once is still removed ----------

#[test]
fn on_once_removed_even_if_handler_panics() {
    let mut bus = new_bus();
    let count = Arc::new(Mutex::new(0u32));
    let cl = Arc::clone(&count);
    bus.on_once("e", failing(move |_| *cl.lock().unwrap() += 1));
    let _ = emit(&mut bus, "e", Value::Null);
    let _ = emit(&mut bus, "e", Value::Null);
    assert_eq!(*count.lock().unwrap(), 1);
    assert_eq!(bus.subscribers(Some("e")).len(), 0);
}

// ---------- Event shape ----------

#[test]
fn event_holds_name_and_payload_verbatim() {
    let mut bus = new_bus();
    let captured: Arc<Mutex<Option<Event>>> = Arc::new(Mutex::new(None));
    let cl = Arc::clone(&captured);
    bus.on("x", ok(move |e| *cl.lock().unwrap() = Some(e.clone())));
    emit(&mut bus, "x", obj(vec![("a", Value::from(1)), ("b", Value::from("two"))]));
    let evt = captured.lock().unwrap().clone().unwrap();
    assert_eq!(evt.name, "x");
    assert_eq!(evt.payload, obj(vec![("a", Value::from(1)), ("b", Value::from("two"))]));
}
