//! The mathematical model of the bus: topics of handler entries, the
//! operations on it as spec functions, and the facts the proofs use.

use crate::event::{Event, Subscription, SubscriptionView, WILDCARD};
use vstd::prelude::*;

verus! {

/// One registered handler as the model sees it.
pub struct Entry<H> {
    pub sub: SubscriptionView,
    pub handler: H,
    pub once: bool,
}

/// Every handler registered under one event name, in registration order.
pub struct Topic<H> {
    pub name: Seq<char>,
    pub entries: Seq<Entry<H>>,
}

/// The whole bus: its topics in the order their names were first
/// registered, the error callback, and the id the next registration gets.
pub struct BusView<H, C> {
    pub topics: Seq<Topic<H>>,
    pub on_error: Option<C>,
    pub next_id: u64,
}

/// Position of the topic called `name`, or -1 when there is none.
pub open spec fn topic_index<H>(topics: Seq<Topic<H>>, name: Seq<char>) -> int {
    if exists|i: int| 0 <= i < topics.len() && #[trigger] topics[i].name == name {
        choose|i: int| 0 <= i < topics.len() && #[trigger] topics[i].name == name
    } else {
        -1
    }
}

/// The handlers registered under `name` (none when the topic is absent).
pub open spec fn entries_of<H>(topics: Seq<Topic<H>>, name: Seq<char>) -> Seq<Entry<H>> {
    let i = topic_index(topics, name);
    if i >= 0 {
        topics[i].entries
    } else {
        Seq::empty()
    }
}

/// Every handler on the bus, topic by topic.
pub open spec fn all_entries<H>(topics: Seq<Topic<H>>) -> Seq<Entry<H>>
    decreases topics.len(),
{
    if topics.len() == 0 {
        Seq::empty()
    } else {
        all_entries(topics.drop_last()) + topics.last().entries
    }
}

/// Number of handlers on the bus.
pub open spec fn total<H>(topics: Seq<Topic<H>>) -> nat
    decreases topics.len(),
{
    if topics.len() == 0 {
        0
    } else {
        total(topics.drop_last()) + topics.last().entries.len()
    }
}

/// The subscription handles of some entries.
pub open spec fn subs_of<H>(entries: Seq<Entry<H>>) -> Seq<SubscriptionView> {
    entries.map_values(|e: Entry<H>| e.sub)
}

/// The views of some subscription handles.
pub open spec fn views_of(subs: Seq<Subscription>) -> Seq<SubscriptionView> {
    subs.map_values(|s: Subscription| s@)
}

/// The entries that survive being dispatched: every one-shot entry goes.
pub open spec fn persistent<H>(entries: Seq<Entry<H>>) -> Seq<Entry<H>>
    decreases entries.len(),
{
    if entries.len() == 0 {
        Seq::empty()
    } else {
        let rest = persistent(entries.drop_last());
        if entries.last().once {
            rest
        } else {
            rest.push(entries.last())
        }
    }
}

/// The subscriptions of the dispatched entries whose handler failed,
/// in dispatch order; `outcomes[i]` is true when `plan[i]` failed.
pub open spec fn failures<H>(plan: Seq<Entry<H>>, outcomes: Seq<bool>) -> Seq<SubscriptionView>
    decreases plan.len(),
{
    if plan.len() == 0 || outcomes.len() == 0 {
        Seq::empty()
    } else {
        let rest = failures(plan.drop_last(), outcomes.drop_last());
        if outcomes.last() {
            rest.push(plan.last().sub)
        } else {
            rest
        }
    }
}

/// The topic list after the handlers under `name` were dispatched.
pub open spec fn fire_topic<H>(topics: Seq<Topic<H>>, name: Seq<char>) -> Seq<Topic<H>> {
    let i = topic_index(topics, name);
    if i >= 0 {
        topics.update(i, Topic { name: topics[i].name, entries: persistent(topics[i].entries) })
    } else {
        topics
    }
}

/// Every entry of `t` carries the topic's name and an id in `1..next_id`,
/// and no two entries of `t` share an id.
pub open spec fn topic_ok<H>(t: Topic<H>, next_id: u64) -> bool {
    &&& forall|k: int|
        #![trigger t.entries[k]]
        0 <= k < t.entries.len() ==> {
            &&& t.entries[k].sub.event == t.name
            &&& 1 <= t.entries[k].sub.id < next_id
        }
    &&& forall|k: int, l: int|
        0 <= k < l < t.entries.len() ==> t.entries[k].sub.id != t.entries[l].sub.id
}

/// No entry of `a` shares its id with an entry of `b`.
pub open spec fn ids_apart<H>(a: Topic<H>, b: Topic<H>) -> bool {
    forall|k: int, l: int|
        0 <= k < a.entries.len() && 0 <= l < b.entries.len() ==> #[trigger] a.entries[k].sub.id
            != #[trigger] b.entries[l].sub.id
}

/// Position of the entry with subscription id `id`, or -1 when there is none.
pub open spec fn entry_index<H>(entries: Seq<Entry<H>>, id: u64) -> int {
    if exists|k: int| 0 <= k < entries.len() && #[trigger] entries[k].sub.id == id {
        choose|k: int| 0 <= k < entries.len() && #[trigger] entries[k].sub.id == id
    } else {
        -1
    }
}

impl<H, C> BusView<H, C> {
    /// Topic names are distinct, every topic satisfies [`topic_ok`], no id
    /// is shared by two topics (so ids are distinct across the whole bus),
    /// the number of handlers fits in a `usize`, and ids start at 1.
    pub open spec fn wf(self) -> bool {
        &&& forall|i: int, j: int|
            0 <= i < j < self.topics.len() ==> self.topics[i].name != self.topics[j].name
        &&& forall|i: int| 0 <= i < self.topics.len() ==> #[trigger] topic_ok(self.topics[i], self.next_id)
        &&& forall|i: int, j: int|
            0 <= i < self.topics.len() && 0 <= j < self.topics.len() && i != j ==> #[trigger] ids_apart(
                self.topics[i],
                self.topics[j],
            )
        &&& total(self.topics) <= usize::MAX
        &&& self.next_id >= 1
    }

    /// Room for one more registration: an unused id and a handler count
    /// that still fits in a `usize`.
    pub open spec fn can_register(self) -> bool {
        &&& self.next_id < u64::MAX
        &&& total(self.topics) < usize::MAX
    }

    /// The bus after a handler is registered under `name`: it is appended
    /// to that name's topic, which is created at the end when absent.
    pub open spec fn register(self, name: Seq<char>, handler: H, once: bool) -> BusView<H, C> {
        let e = Entry { sub: SubscriptionView { id: self.next_id, event: name }, handler, once };
        let i = topic_index(self.topics, name);
        BusView {
            topics: if i >= 0 {
                self.topics.update(i, Topic { name, entries: self.topics[i].entries.push(e) })
            } else {
                self.topics.push(Topic { name, entries: seq![e] })
            },
            on_error: self.on_error,
            next_id: (self.next_id + 1) as u64,
        }
    }

    /// Whether the bus holds the handler of `sub`: one registered under
    /// `sub`'s event name with `sub`'s id.
    pub open spec fn holds(self, sub: SubscriptionView) -> bool {
        let i = topic_index(self.topics, sub.event);
        i >= 0 && entry_index(self.topics[i].entries, sub.id) >= 0
    }

    /// The bus after the handler of `sub` is removed (unchanged when the
    /// bus does not hold it). An emptied topic stays in place.
    pub open spec fn unsubscribe(self, sub: SubscriptionView) -> BusView<H, C> {
        if self.holds(sub) {
            let i = topic_index(self.topics, sub.event);
            let k = entry_index(self.topics[i].entries, sub.id);
            BusView {
                topics: self.topics.update(
                    i,
                    Topic { name: self.topics[i].name, entries: self.topics[i].entries.remove(k) },
                ),
                on_error: self.on_error,
                next_id: self.next_id,
            }
        } else {
            self
        }
    }

    /// The bus after the whole topic `name` is removed.
    pub open spec fn drop_topic(self, name: Seq<char>) -> BusView<H, C> {
        let i = topic_index(self.topics, name);
        BusView {
            topics: if i >= 0 {
                self.topics.remove(i)
            } else {
                self.topics
            },
            on_error: self.on_error,
            next_id: self.next_id,
        }
    }

    /// The bus with every topic removed.
    pub open spec fn cleared(self) -> BusView<H, C> {
        BusView { topics: Seq::empty(), on_error: self.on_error, next_id: self.next_id }
    }

    /// The handlers an emit of `name` dispatches, in order: those registered
    /// under `name` (unless `name` is the wildcard itself), then the
    /// firehose handlers.
    pub open spec fn plan(self, name: Seq<char>) -> Seq<Entry<H>> {
        (if name != WILDCARD@ {
            entries_of(self.topics, name)
        } else {
            Seq::empty()
        }) + entries_of(self.topics, WILDCARD@)
    }

    /// The bus after an emit of `name`: the one-shot handlers among those
    /// dispatched are gone; nothing else changes.
    pub open spec fn after_dispatch(self, name: Seq<char>) -> BusView<H, C> {
        let ts = if name != WILDCARD@ {
            fire_topic(self.topics, name)
        } else {
            self.topics
        };
        BusView { topics: fire_topic(ts, WILDCARD@), on_error: self.on_error, next_id: self.next_id }
    }

    /// The bus with its error callback replaced.
    pub open spec fn with_on_error(self, cb: Option<C>) -> BusView<H, C> {
        BusView { topics: self.topics, on_error: cb, next_id: self.next_id }
    }
}



/// `states` and `outcomes` record a run of `run` over `plan`: the run
/// starts in state `s0`, and its step `i` calls `run` once, on state
/// `states[i]` and the handler of `plan[i]`, which gives state
/// `states[i + 1]` and outcome `outcomes[i]` (true when the handler failed).
/// Nothing else is called in between.
pub open spec fn run_trace<S, H, F: Fn(S, &H, &Event) -> (S, bool)>(
    run: F,
    plan: Seq<Entry<H>>,
    event: Event,
    s0: S,
    states: Seq<S>,
    outcomes: Seq<bool>,
) -> bool {
    &&& states.len() == plan.len() + 1
    &&& outcomes.len() == plan.len()
    &&& states[0] == s0
    &&& forall|i: int|
        0 <= i < plan.len() ==> call_ensures(
            run,
            (states[i], &plan[i].handler, &event),
            (states[i + 1], #[trigger] outcomes[i]),
        )
}

/// `states` records a run of `report` over `failed` with callback `cb`:
/// it starts in state `s0`, and its step `j` calls `report` once, on state
/// `states[j]`, `cb` and the subscription `failed[j]`, which gives state
/// `states[j + 1]`. Nothing else is called in between.
pub open spec fn report_trace<S, C, G: Fn(S, &C, &Subscription, &Event) -> S>(
    report: G,
    cb: C,
    failed: Seq<SubscriptionView>,
    event: Event,
    s0: S,
    states: Seq<S>,
) -> bool {
    &&& states.len() == failed.len() + 1
    &&& states[0] == s0
    &&& forall|j: int|
        0 <= j < failed.len() ==> exists|s: Subscription|
            #![trigger s@]
            s@ == #[trigger] failed[j] && call_ensures(report, (states[j], &cb, &s, &event), states[j + 1])
}

/// A whole emit, recorded: `run` went over `plan` as [`run_trace`]
/// says; then, with a callback installed, `report` went over the failed
/// subscriptions as [`report_trace`] says, from where the run ended. The
/// emit ended in state `last`.
pub open spec fn emit_trace<
    S,
    H,
    C,
    F: Fn(S, &H, &Event) -> (S, bool),
    G: Fn(S, &C, &Subscription, &Event) -> S,
>(
    run: F,
    report: G,
    plan: Seq<Entry<H>>,
    on_error: Option<C>,
    event: Event,
    s0: S,
    states: Seq<S>,
    outcomes: Seq<bool>,
    reported: Seq<S>,
    last: S,
) -> bool {
    &&& run_trace(run, plan, event, s0, states, outcomes)
    &&& match on_error {
        Some(cb) => {
            &&& report_trace(report, cb, failures(plan, outcomes), event, states.last(), reported)
            &&& last == reported.last()
        },
        None => last == states.last(),
    }
}

pub(crate) proof fn lemma_run_trace_concat<S, H, F: Fn(S, &H, &Event) -> (S, bool)>(
    run: F,
    a: Seq<Entry<H>>,
    b: Seq<Entry<H>>,
    event: Event,
    s0: S,
    sa: Seq<S>,
    oa: Seq<bool>,
    sb: Seq<S>,
    ob: Seq<bool>,
)
    requires
        run_trace(run, a, event, s0, sa, oa),
        run_trace(run, b, event, sa.last(), sb, ob),
    ensures
        run_trace(run, a + b, event, s0, sa + sb.drop_first(), oa + ob),
        (sa + sb.drop_first()).last() == sb.last(),
{
    let st = sa + sb.drop_first();
    let ot = oa + ob;
    let p = a + b;
    assert(sa.last() == sa[a.len() as int]);
    assert forall|i: int| 0 <= i < p.len() implies call_ensures(
        run,
        (st[i], &p[i].handler, &event),
        (st[i + 1], #[trigger] ot[i]),
    ) by {
        if i < a.len() {
            assert(st[i] == sa[i] && st[i + 1] == sa[i + 1] && p[i] == a[i] && ot[i] == oa[i]);
        } else {
            let m = i - a.len();
            assert(p[i] == b[m] && ot[i] == ob[m]);
            assert(st[i + 1] == sb[m + 1]);
            if m == 0 {
                assert(st[i] == sa[a.len() as int]);
            } else {
                assert(st[i] == sb[m]);
            }
        }
    }
    if b.len() > 0 {
        assert(st.last() == sb[b.len() as int]);
    } else {
        assert(st =~= sa);
    }
}

// ---------------------------------------------------------------------------
// Facts about the model
// ---------------------------------------------------------------------------

pub(crate) proof fn lemma_topic_index<H>(topics: Seq<Topic<H>>, name: Seq<char>)
    ensures
        -1 <= topic_index(topics, name) < topics.len(),
        topic_index(topics, name) >= 0 ==> topics[topic_index(topics, name)].name == name,
        topic_index(topics, name) == -1 ==> forall|i: int|
            0 <= i < topics.len() ==> #[trigger] topics[i].name != name,
{
}

/// With distinct names, the topic found is the only one with that name.
pub(crate) proof fn lemma_topic_index_unique<H>(topics: Seq<Topic<H>>, name: Seq<char>, i: int)
    requires
        forall|a: int, b: int| 0 <= a < b < topics.len() ==> topics[a].name != topics[b].name,
        0 <= i < topics.len(),
        topics[i].name == name,
    ensures
        topic_index(topics, name) == i,
{
    lemma_topic_index(topics, name);
}

pub(crate) proof fn lemma_total_push<H>(topics: Seq<Topic<H>>, t: Topic<H>)
    ensures
        total(topics.push(t)) == total(topics) + t.entries.len(),
{
    assert(topics.push(t).drop_last() =~= topics);
}

pub(crate) proof fn lemma_total_update<H>(topics: Seq<Topic<H>>, i: int, t: Topic<H>)
    requires
        0 <= i < topics.len(),
    ensures
        total(topics.update(i, t)) == total(topics) - topics[i].entries.len() + t.entries.len(),
    decreases topics.len(),
{
    if i == topics.len() - 1 {
        assert(topics.update(i, t).drop_last() =~= topics.drop_last());
    } else {
        lemma_total_update(topics.drop_last(), i, t);
        assert(topics.update(i, t).drop_last() =~= topics.drop_last().update(i, t));
    }
}

pub(crate) proof fn lemma_total_remove<H>(topics: Seq<Topic<H>>, i: int)
    requires
        0 <= i < topics.len(),
    ensures
        total(topics.remove(i)) == total(topics) - topics[i].entries.len(),
    decreases topics.len(),
{
    if i == topics.len() - 1 {
        assert(topics.remove(i) =~= topics.drop_last());
    } else {
        lemma_total_remove(topics.drop_last(), i);
        assert(topics.remove(i).drop_last() =~= topics.drop_last().remove(i));
    }
}


pub(crate) proof fn lemma_topic_ok_grow<H>(t: Topic<H>, n: u64, m: u64)
    requires
        topic_ok(t, n),
        n <= m,
    ensures
        topic_ok(t, m),
{
}

pub(crate) proof fn lemma_topic_ok_push<H>(t: Topic<H>, n: u64, e: Entry<H>)
    requires
        topic_ok(t, n),
        e.sub.event == t.name,
        1 <= e.sub.id == n < u64::MAX,
    ensures
        topic_ok(Topic { name: t.name, entries: t.entries.push(e) }, (n + 1) as u64),
{
    let t2 = Topic { name: t.name, entries: t.entries.push(e) };
    assert forall|k: int, l: int| 0 <= k < l < t2.entries.len() implies
        t2.entries[k].sub.id != t2.entries[l].sub.id by {
        assert(t2.entries[k] == t.entries[k]);
        if l < t.entries.len() {
            assert(t2.entries[l] == t.entries[l]);
        }
    }
}


/// Entries drawn from `a` stay apart from whatever `a` was apart from.
pub(crate) proof fn lemma_apart_drawn<H>(a: Topic<H>, a2: Topic<H>, b: Topic<H>)
    requires
        ids_apart(a, b),
        forall|k: int| 0 <= k < a2.entries.len() ==> a.entries.contains(#[trigger] a2.entries[k]),
    ensures
        ids_apart(a2, b),
        ids_apart(b, a2),
{
    assert forall|k: int, l: int| 0 <= k < a2.entries.len() && 0 <= l < b.entries.len() implies
        #[trigger] a2.entries[k].sub.id != #[trigger] b.entries[l].sub.id by {
        assert(a.entries.contains(a2.entries[k]));
        let m = choose|m: int| 0 <= m < a.entries.len() && a.entries[m] == a2.entries[k];
        assert(a.entries[m].sub.id != b.entries[l].sub.id);
    }
    assert forall|k: int, l: int| 0 <= k < b.entries.len() && 0 <= l < a2.entries.len() implies
        #[trigger] b.entries[k].sub.id != #[trigger] a2.entries[l].sub.id by {
        assert(a2.entries[l].sub.id != b.entries[k].sub.id);
    }
}

/// A topic whose ids are all below `n` is apart from one whose ids are `n`.
pub(crate) proof fn lemma_apart_fresh<H>(a: Topic<H>, n: u64, b: Topic<H>)
    requires
        topic_ok(a, n),
        forall|l: int| 0 <= l < b.entries.len() ==> (#[trigger] b.entries[l]).sub.id == n,
    ensures
        ids_apart(a, b),
        ids_apart(b, a),
{
    assert forall|k: int, l: int| 0 <= k < a.entries.len() && 0 <= l < b.entries.len() implies
        #[trigger] a.entries[k].sub.id != #[trigger] b.entries[l].sub.id by {
        assert(a.entries[k].sub.id < n);
    }
    assert forall|k: int, l: int| 0 <= k < b.entries.len() && 0 <= l < a.entries.len() implies
        #[trigger] b.entries[k].sub.id != #[trigger] a.entries[l].sub.id by {
        assert(a.entries[l].sub.id < n);
    }
}

/// Appending an entry with a fresh id keeps a topic apart from another.
pub(crate) proof fn lemma_apart_push<H>(a: Topic<H>, e: Entry<H>, n: u64, b: Topic<H>)
    requires
        ids_apart(a, b),
        topic_ok(b, n),
        e.sub.id == n,
    ensures
        ids_apart(Topic { name: a.name, entries: a.entries.push(e) }, b),
        ids_apart(b, Topic { name: a.name, entries: a.entries.push(e) }),
{
    let a2 = Topic { name: a.name, entries: a.entries.push(e) };
    assert forall|k: int, l: int| 0 <= k < a2.entries.len() && 0 <= l < b.entries.len() implies
        #[trigger] a2.entries[k].sub.id != #[trigger] b.entries[l].sub.id by {
        assert(b.entries[l].sub.id < n);
        if k < a.entries.len() {
            assert(a2.entries[k] == a.entries[k]);
            assert(a.entries[k].sub.id != b.entries[l].sub.id);
        }
    }
    assert forall|k: int, l: int| 0 <= k < b.entries.len() && 0 <= l < a2.entries.len() implies
        #[trigger] b.entries[k].sub.id != #[trigger] a2.entries[l].sub.id by {
        assert(a2.entries[l].sub.id != b.entries[k].sub.id);
    }
}

/// Raising the id counter keeps the bus well formed.
pub(crate) proof fn lemma_next_id_grow<H, C>(v: BusView<H, C>)
    requires
        v.wf(),
        v.next_id < u64::MAX,
    ensures
        (BusView { topics: v.topics, on_error: v.on_error, next_id: (v.next_id + 1) as u64 }).wf(),
{
    let w = BusView { topics: v.topics, on_error: v.on_error, next_id: (v.next_id + 1) as u64 };
    assert forall|i: int| 0 <= i < w.topics.len() implies #[trigger] topic_ok(w.topics[i], w.next_id) by {
        lemma_topic_ok_grow(v.topics[i], v.next_id, w.next_id);
    }
}

pub(crate) proof fn lemma_register_wf<H, C>(v: BusView<H, C>, name: Seq<char>, handler: H, once: bool)
    requires
        v.wf(),
        v.can_register(),
    ensures
        v.register(name, handler, once).wf(),
        total(v.register(name, handler, once).topics) == total(v.topics) + 1,
{
    let w = v.register(name, handler, once);
    let e = Entry { sub: SubscriptionView { id: v.next_id, event: name }, handler, once };
    let i = topic_index(v.topics, name);
    lemma_topic_index(v.topics, name);
    if i >= 0 {
        let t = Topic { name, entries: v.topics[i].entries.push(e) };
        lemma_total_update(v.topics, i, t);
        assert forall|a: int| 0 <= a < w.topics.len() implies #[trigger] topic_ok(w.topics[a], w.next_id) by {
            if a == i {
                lemma_topic_ok_push(v.topics[i], v.next_id, e);
            } else {
                lemma_topic_ok_grow(v.topics[a], v.next_id, w.next_id);
            }
        }
        assert forall|a: int, b: int| 0 <= a < w.topics.len() && 0 <= b < w.topics.len() && a != b implies #[trigger] ids_apart(
            w.topics[a],
            w.topics[b],
        ) by {
            assert(ids_apart(v.topics[a], v.topics[b]));
            if a == i {
                lemma_apart_push(v.topics[i], e, v.next_id, v.topics[b]);
            } else if b == i {
                lemma_apart_push(v.topics[i], e, v.next_id, v.topics[a]);
            }
        }
    } else {
        let t = Topic { name, entries: seq![e] };
        lemma_total_push(v.topics, t);
        assert forall|a: int| 0 <= a < w.topics.len() implies #[trigger] topic_ok(w.topics[a], w.next_id) by {
            if a < v.topics.len() {
                lemma_topic_ok_grow(v.topics[a], v.next_id, w.next_id);
            } else {
                let t0 = Topic { name, entries: Seq::<Entry<H>>::empty() };
                assert(t0.entries.push(e) =~= seq![e]);
                lemma_topic_ok_push(t0, v.next_id, e);
            }
        }
        assert forall|a: int, b: int| 0 <= a < w.topics.len() && 0 <= b < w.topics.len() && a != b implies #[trigger] ids_apart(
            w.topics[a],
            w.topics[b],
        ) by {
            if a < v.topics.len() && b < v.topics.len() {
                assert(ids_apart(v.topics[a], v.topics[b]));
            } else if a < v.topics.len() {
                lemma_apart_fresh(v.topics[a], v.next_id, t);
            } else {
                lemma_apart_fresh(v.topics[b], v.next_id, t);
            }
        }
    }
}

pub(crate) proof fn lemma_entry_index<H>(entries: Seq<Entry<H>>, id: u64)
    ensures
        -1 <= entry_index(entries, id) < entries.len(),
        entry_index(entries, id) >= 0 ==> entries[entry_index(entries, id)].sub.id == id,
        entry_index(entries, id) == -1 ==> forall|k: int|
            0 <= k < entries.len() ==> #[trigger] entries[k].sub.id != id,
{
}

pub(crate) proof fn lemma_entry_index_unique<H>(t: Topic<H>, n: u64, k: int)
    requires
        topic_ok(t, n),
        0 <= k < t.entries.len(),
    ensures
        entry_index(t.entries, t.entries[k].sub.id) == k,
{
    lemma_entry_index(t.entries, t.entries[k].sub.id);
}

pub(crate) proof fn lemma_topic_ok_remove<H>(t: Topic<H>, n: u64, k: int)
    requires
        topic_ok(t, n),
        0 <= k < t.entries.len(),
    ensures
        topic_ok(Topic { name: t.name, entries: t.entries.remove(k) }, n),
{
    let t2 = Topic { name: t.name, entries: t.entries.remove(k) };
    assert forall|a: int| 0 <= a < t2.entries.len() implies #[trigger] t2.entries[a] == t.entries[
        if a < k { a } else { a + 1 }
    ] by {}
    assert forall|a: int, b: int| 0 <= a < b < t2.entries.len() implies
        t2.entries[a].sub.id != t2.entries[b].sub.id by {
        assert(t2.entries[a] == t.entries[if a < k { a } else { a + 1 }]);
        assert(t2.entries[b] == t.entries[if b < k { b } else { b + 1 }]);
    }
    assert forall|a: int| #![trigger t2.entries[a]] 0 <= a < t2.entries.len() implies {
        &&& t2.entries[a].sub.event == t2.name
        &&& 1 <= t2.entries[a].sub.id < n
    } by {
        assert(t2.entries[a] == t.entries[if a < k { a } else { a + 1 }]);
    }
}

pub(crate) proof fn lemma_unsubscribe_wf<H, C>(v: BusView<H, C>, sub: SubscriptionView)
    requires
        v.wf(),
    ensures
        v.unsubscribe(sub).wf(),
        total(v.unsubscribe(sub).topics) == total(v.topics) - (if v.holds(sub) { 1int } else { 0 }),
{
    if v.holds(sub) {
        let i = topic_index(v.topics, sub.event);
        let k = entry_index(v.topics[i].entries, sub.id);
        lemma_topic_index(v.topics, sub.event);
        lemma_entry_index(v.topics[i].entries, sub.id);
        let t = Topic { name: v.topics[i].name, entries: v.topics[i].entries.remove(k) };
        lemma_total_update(v.topics, i, t);
        lemma_topic_ok_remove(v.topics[i], v.next_id, k);
        let w = v.unsubscribe(sub);
        assert forall|a: int| 0 <= a < w.topics.len() implies #[trigger] topic_ok(w.topics[a], w.next_id) by {
            if a != i {
                assert(w.topics[a] == v.topics[a]);
            }
        }
        assert forall|m: int| 0 <= m < t.entries.len() implies v.topics[i].entries.contains(#[trigger] t.entries[m]) by {
            assert(t.entries[m] == v.topics[i].entries[if m < k { m } else { m + 1 }]);
        }
        assert forall|a: int, b: int| 0 <= a < w.topics.len() && 0 <= b < w.topics.len() && a != b implies #[trigger] ids_apart(
            w.topics[a],
            w.topics[b],
        ) by {
            assert(ids_apart(v.topics[a], v.topics[b]));
            if a == i {
                lemma_apart_drawn(v.topics[i], t, v.topics[b]);
            } else if b == i {
                assert(ids_apart(v.topics[b], v.topics[a]));
                lemma_apart_drawn(v.topics[i], t, v.topics[a]);
            }
        }
    }
}

pub(crate) proof fn lemma_drop_topic_wf<H, C>(v: BusView<H, C>, name: Seq<char>)
    requires
        v.wf(),
    ensures
        v.drop_topic(name).wf(),
        total(v.drop_topic(name).topics) == total(v.topics) - entries_of(v.topics, name).len(),
{
    let i = topic_index(v.topics, name);
    lemma_topic_index(v.topics, name);
    if i >= 0 {
        lemma_total_remove(v.topics, i);
        let w = v.drop_topic(name);
        assert forall|a: int| 0 <= a < w.topics.len() implies #[trigger] topic_ok(w.topics[a], w.next_id) by {
            assert(w.topics[a] == v.topics[if a < i { a } else { a + 1 }]);
        }
        assert forall|a: int, b: int| 0 <= a < b < w.topics.len() implies
            w.topics[a].name != w.topics[b].name by {
            assert(w.topics[a] == v.topics[if a < i { a } else { a + 1 }]);
            assert(w.topics[b] == v.topics[if b < i { b } else { b + 1 }]);
        }
    }
}

pub(crate) proof fn lemma_total_prefix<H>(topics: Seq<Topic<H>>, i: int)
    requires
        0 <= i <= topics.len(),
    ensures
        total(topics.take(i)) <= total(topics),
    decreases topics.len(),
{
    if i < topics.len() {
        assert(topics.take(i) =~= topics.drop_last().take(i));
        lemma_total_prefix(topics.drop_last(), i);
    } else {
        assert(topics.take(i) =~= topics);
    }
}

pub(crate) proof fn lemma_subs_of_add<H>(a: Seq<Entry<H>>, b: Seq<Entry<H>>)
    ensures
        subs_of(a + b) == subs_of(a) + subs_of(b),
{
    assert(subs_of(a + b) =~= subs_of(a) + subs_of(b));
}

pub(crate) proof fn lemma_persistent_from<H>(s: Seq<Entry<H>>)
    ensures
        persistent(s).len() <= s.len(),
        forall|j: int| 0 <= j < persistent(s).len() ==> s.contains(#[trigger] persistent(s)[j]),
    decreases s.len(),
{
    if s.len() > 0 {
        let r = persistent(s.drop_last());
        lemma_persistent_from(s.drop_last());
        assert forall|j: int| 0 <= j < persistent(s).len() implies s.contains(#[trigger] persistent(s)[j]) by {
            if j < r.len() {
                assert(persistent(s)[j] == r[j]);
                assert(s.drop_last().contains(r[j]));
                let k = choose|k: int| 0 <= k < s.drop_last().len() && s.drop_last()[k] == r[j];
                assert(s[k] == r[j]);
            } else {
                assert(persistent(s)[j] == s.last());
                assert(s[s.len() - 1] == s.last());
            }
        }
    }
}

pub(crate) proof fn lemma_topic_ok_persistent<H>(t: Topic<H>, n: u64)
    requires
        topic_ok(t, n),
    ensures
        topic_ok(Topic { name: t.name, entries: persistent(t.entries) }, n),
    decreases t.entries.len(),
{
    if t.entries.len() > 0 {
        let t0 = Topic { name: t.name, entries: t.entries.drop_last() };
        assert forall|k: int, l: int| 0 <= k < l < t0.entries.len() implies
            t0.entries[k].sub.id != t0.entries[l].sub.id by {
            assert(t0.entries[k] == t.entries[k] && t0.entries[l] == t.entries[l]);
        }
        assert forall|k: int| #![trigger t0.entries[k]] 0 <= k < t0.entries.len() implies {
            &&& t0.entries[k].sub.event == t0.name
            &&& 1 <= t0.entries[k].sub.id < n
        } by {
            assert(t0.entries[k] == t.entries[k]);
        }
        lemma_topic_ok_persistent(t0, n);
        let last = t.entries.last();
        assert(last == t.entries[t.entries.len() - 1]);
        if !last.once {
            let r = persistent(t0.entries);
            lemma_persistent_from(t0.entries);
            let t1 = Topic { name: t.name, entries: r.push(last) };
            assert forall|k: int, l: int| 0 <= k < l < t1.entries.len() implies
                t1.entries[k].sub.id != t1.entries[l].sub.id by {
                assert(t1.entries[k] == r[k]);
                let tr = Topic { name: t.name, entries: r };
                assert(topic_ok(tr, n));
                if l < r.len() {
                    assert(t1.entries[l] == r[l]);
                    assert(tr.entries[k].sub.id != tr.entries[l].sub.id);
                } else {
                    assert(t0.entries.contains(r[k]));
                    let m = choose|m: int| 0 <= m < t0.entries.len() && t0.entries[m] == r[k];
                    assert(t.entries[m] == r[k]);
                }
            }
            assert forall|k: int| #![trigger t1.entries[k]] 0 <= k < t1.entries.len() implies {
                &&& t1.entries[k].sub.event == t1.name
                &&& 1 <= t1.entries[k].sub.id < n
            } by {
                if k < r.len() {
                    assert(t1.entries[k] == r[k]);
                }
            }
        }
    }
}

pub(crate) proof fn lemma_failures_add<H>(a: Seq<Entry<H>>, oa: Seq<bool>, b: Seq<Entry<H>>, ob: Seq<bool>)
    requires
        a.len() == oa.len(),
        b.len() == ob.len(),
    ensures
        failures(a + b, oa + ob) == failures(a, oa) + failures(b, ob),
    decreases b.len(),
{
    if b.len() == 0 {
        assert(a + b =~= a);
        assert(oa + ob =~= oa);
        assert(failures(a, oa) + failures(b, ob) =~= failures(a, oa));
    } else {
        assert((a + b).drop_last() =~= a + b.drop_last());
        assert((oa + ob).drop_last() =~= oa + ob.drop_last());
        lemma_failures_add(a, oa, b.drop_last(), ob.drop_last());
        let r = failures(a, oa) + failures(b.drop_last(), ob.drop_last());
        if ob.last() {
            assert(r.push(b.last().sub) =~= failures(a, oa) + failures(b.drop_last(), ob.drop_last()).push(b.last().sub));
        }
    }
}

/// Firing a topic keeps the topic list well formed and never adds handlers.
pub(crate) proof fn lemma_fire_topic_wf<H, C>(v: BusView<H, C>, name: Seq<char>)
    requires
        v.wf(),
    ensures
        (BusView { topics: fire_topic(v.topics, name), on_error: v.on_error, next_id: v.next_id }).wf(),
        forall|m: Seq<char>| topic_index(fire_topic(v.topics, name), m) == topic_index(v.topics, m),
{
    let i = topic_index(v.topics, name);
    lemma_topic_index(v.topics, name);
    let ts = fire_topic(v.topics, name);
    if i >= 0 {
        let t = Topic { name: v.topics[i].name, entries: persistent(v.topics[i].entries) };
        lemma_persistent_from(v.topics[i].entries);
        lemma_total_update(v.topics, i, t);
        lemma_topic_ok_persistent(v.topics[i], v.next_id);
        assert forall|a: int| 0 <= a < ts.len() implies #[trigger] topic_ok(ts[a], v.next_id) by {
            if a != i {
                assert(ts[a] == v.topics[a]);
            }
        }
        assert forall|a: int, b: int| 0 <= a < ts.len() && 0 <= b < ts.len() && a != b implies #[trigger] ids_apart(
            ts[a],
            ts[b],
        ) by {
            assert(ids_apart(v.topics[a], v.topics[b]));
            if a == i {
                lemma_apart_drawn(v.topics[i], t, v.topics[b]);
            } else if b == i {
                assert(ids_apart(v.topics[b], v.topics[a]));
                lemma_apart_drawn(v.topics[i], t, v.topics[a]);
            }
        }
        assert forall|m: Seq<char>| topic_index(ts, m) == topic_index(v.topics, m) by {
            lemma_topic_index(v.topics, m);
            lemma_topic_index(ts, m);
            if topic_index(v.topics, m) >= 0 {
                lemma_topic_index_unique(ts, m, topic_index(v.topics, m));
            } else if topic_index(ts, m) >= 0 {
                assert(ts[topic_index(ts, m)].name == v.topics[topic_index(ts, m)].name);
            }
        }
    }
}

} // verus!
