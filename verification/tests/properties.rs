//! Concrete checks of the bus's stated properties.

use std::sync::{Arc, Mutex};

use agent_event_bus::{Event, EventBus, Subscription, WILDCARD};
use serde_json::Value;

type Handler = Box<dyn Fn(&Event) -> bool + Send + Sync>;
type OnError = Box<dyn Fn(&Subscription, &Event) + Send + Sync>;
type Bus = EventBus<Handler, OnError>;

fn run(st: (), h: &Handler, e: &Event) -> ((), bool) {
    (st, h(e))
}

fn report(_st: (), cb: &OnError, s: &Subscription, e: &Event) {
    cb(s, e)
}

fn fine() -> Handler {
    Box::new(|_: &Event| false)
}

fn broken() -> Handler {
    Box::new(|_: &Event| true)
}

fn event(name: &str) -> Event {
    Event { name: name.to_string(), payload: Value::Null }
}

fn ids(subs: &[Subscription]) -> Vec<u64> {
    subs.iter().map(|s| s.id()).collect()
}

#[test]
fn new_bus_is_empty_and_has_room() {
    let bus: Bus = EventBus::new();
    assert!(bus.is_empty());
    assert_eq!(bus.len(), 0);
    assert!(bus.can_register());
    assert!(bus.subscribers(None).is_empty());
    let d: Bus = Default::default();
    assert!(d.is_empty());
}

#[test]
fn first_subscription_id_is_one_and_ids_count_up() {
    let mut bus: Bus = EventBus::new();
    let a = bus.on("a", fine());
    let b = bus.on_once("b", fine());
    bus.off(a.clone());
    let c = bus.on("a", fine());
    assert_eq!((a.id(), b.id(), c.id()), (1, 2, 3));
}

#[test]
fn clone_keeps_id_and_event() {
    let mut bus: Bus = EventBus::new();
    let s = bus.on("x.y", fine());
    let t = s.clone();
    assert_eq!(t.id(), s.id());
    assert_eq!(t.event(), "x.y");
    assert_eq!(t, s);
}

#[test]
fn dispatch_reports_failed_subscriptions_in_dispatch_order() {
    let mut bus: Bus = EventBus::new();
    let w = bus.on(WILDCARD, broken());
    let a1 = bus.on("a", broken());
    bus.on("a", fine());
    let a3 = bus.on_once("a", broken());
    let failed = bus.dispatch(&event("a"), (), run).0;
    assert_eq!(ids(&failed), vec![a1.id(), a3.id(), w.id()]);
    assert_eq!(failed[2].event(), "*");
    // the one-shot handler is gone, the others stay
    assert_eq!(bus.subscribers(Some("a")).len(), 2);
    assert_eq!(bus.len(), 3);
}

#[test]
fn dispatch_without_failures_reports_nothing() {
    let mut bus: Bus = EventBus::new();
    bus.on("a", fine());
    bus.on("*", fine());
    assert!(bus.dispatch(&event("a"), (), run).0.is_empty());
}

#[test]
fn dispatch_leaves_other_names_untouched() {
    let mut bus: Bus = EventBus::new();
    let b = bus.on_once("b", fine());
    bus.on_once("a", fine());
    bus.on_once("*", fine());
    bus.dispatch(&event("a"), (), run).0;
    assert!(bus.subscribers(Some("a")).is_empty());
    assert!(bus.subscribers(Some("*")).is_empty());
    assert_eq!(ids(&bus.subscribers(Some("b"))), vec![b.id()]);
}

#[test]
fn off_then_off_again_changes_nothing() {
    let mut bus: Bus = EventBus::new();
    let s = bus.on("a", fine());
    bus.on("a", fine());
    assert!(bus.off(s.clone()));
    let before = ids(&bus.subscribers(None));
    assert!(!bus.off(s));
    assert_eq!(ids(&bus.subscribers(None)), before);
}

#[test]
fn off_undoes_on() {
    let mut bus: Bus = EventBus::new();
    bus.on("a", fine());
    bus.on("b", fine());
    let before = ids(&bus.subscribers(None));
    let s = bus.on("c", fine());
    assert_eq!(bus.len(), 3);
    assert!(bus.off(s));
    assert_eq!(ids(&bus.subscribers(None)), before);
    assert_eq!(bus.len(), 2);
    // the emptied topic lists no subscribers
    assert!(bus.subscribers(Some("c")).is_empty());
}

#[test]
fn off_event_keeps_other_names() {
    let mut bus: Bus = EventBus::new();
    let a = bus.on("a", fine());
    bus.on("b", fine());
    let c = bus.on("c", fine());
    assert_eq!(bus.off_event("b"), 1);
    assert!(bus.subscribers(Some("b")).is_empty());
    assert_eq!(ids(&bus.subscribers(None)), vec![a.id(), c.id()]);
}

#[test]
fn all_subscribers_are_listed_topic_by_topic() {
    let mut bus: Bus = EventBus::new();
    let a1 = bus.on("a", fine());
    let b1 = bus.on("b", fine());
    let a2 = bus.on("a", fine());
    let all = bus.subscribers(None);
    assert_eq!(ids(&all), vec![a1.id(), a2.id(), b1.id()]);
    assert_eq!(all.len(), bus.len());
}

#[test]
fn off_all_returns_count_and_leaves_nothing() {
    let mut bus: Bus = EventBus::new();
    let s = bus.on("a", fine());
    bus.on("*", fine());
    assert_eq!(bus.off_all(), 2);
    assert!(!bus.off(s));
    assert_eq!(bus.off_all(), 0);
}

#[test]
fn latest_error_callback_wins() {
    let mut bus: Bus = EventBus::new();
    let first = Arc::new(Mutex::new(0u32));
    let second = Arc::new(Mutex::new(0u32));
    let f = Arc::clone(&first);
    let s = Arc::clone(&second);
    bus.set_on_error(Box::new(move |_: &Subscription, _: &Event| *f.lock().unwrap() += 1));
    bus.set_on_error(Box::new(move |_: &Subscription, _: &Event| *s.lock().unwrap() += 1));
    bus.on("e", broken());
    bus.emit("e", Value::Null, (), run, report);
    assert_eq!(*first.lock().unwrap(), 0);
    assert_eq!(*second.lock().unwrap(), 1);
}

#[test]
fn emit_of_wildcard_removes_one_shot_firehose_handler() {
    let mut bus: Bus = EventBus::new();
    bus.on_once("*", fine());
    let keep = bus.on("*", fine());
    let (e, _) = bus.emit("*", Value::from(5), (), run, report);
    assert_eq!(e.name, "*");
    assert_eq!(e.payload, Value::from(5));
    assert_eq!(ids(&bus.subscribers(Some("*"))), vec![keep.id()]);
}

#[test]
fn emit_threads_state_through_each_handler_once_in_order() {
    let mut bus: Bus = EventBus::new();
    bus.on("*", Box::new(|_: &Event| true));
    bus.on("e", Box::new(|_: &Event| false));
    bus.on("e", Box::new(|_: &Event| true));
    bus.on("f", Box::new(|_: &Event| true));
    bus.set_on_error(Box::new(|_: &Subscription, _: &Event| {}));
    let (_, log) = bus.emit(
        "e",
        Value::Null,
        Vec::<String>::new(),
        |mut log: Vec<String>, h: &Handler, e: &Event| {
            let failed = h(e);
            log.push(format!("run {}", failed));
            (log, failed)
        },
        |mut log: Vec<String>, _: &OnError, s: &Subscription, _: &Event| {
            log.push(format!("report {}", s.id()));
            log
        },
    );
    assert_eq!(log, vec!["run false", "run true", "run true", "report 3", "report 1"]);
}

#[test]
fn emit_without_callback_reports_nothing() {
    let mut bus: Bus = EventBus::new();
    bus.on("e", broken());
    let (_, calls) = bus.emit(
        "e",
        Value::Null,
        0u32,
        |n: u32, h: &Handler, e: &Event| (n + 1, h(e)),
        |n: u32, _: &OnError, _: &Subscription, _: &Event| n + 100,
    );
    assert_eq!(calls, 1);
}
