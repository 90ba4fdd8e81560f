//! Properties of the bus that span several operations, stated over the
//! model of [`crate::model`] and proved.

use crate::event::{SubscriptionView, WILDCARD};
use crate::model::{
    all_entries, entries_of, failures, fire_topic, ids_apart, lemma_entry_index,
    lemma_fire_topic_wf, lemma_topic_index, lemma_topic_index_unique, persistent, topic_index,
    topic_ok, total, BusView, Entry, Topic,
};
use vstd::prelude::*;

verus! {

/// A registration gets the id the bus was about to hand out, which is
/// positive and above every id already on the bus; the next registration
/// gets a strictly greater one.
pub proof fn registration_ids_increase<H, C>(
    v: BusView<H, C>,
    name: Seq<char>,
    handler: H,
    once: bool,
)
    requires
        v.wf(),
        v.can_register(),
    ensures
        v.next_id > 0,
        forall|i: int, k: int|
            0 <= i < v.topics.len() && 0 <= k < v.topics[i].entries.len()
                ==> #[trigger] v.topics[i].entries[k].sub.id < v.next_id,
        v.register(name, handler, once).next_id == v.next_id + 1,
{
    assert forall|i: int, k: int|
        0 <= i < v.topics.len() && 0 <= k < v.topics[i].entries.len()
            implies #[trigger] v.topics[i].entries[k].sub.id < v.next_id by {
        assert(topic_ok(v.topics[i], v.next_id));
    }
}

/// A registration appends one entry at the end of its name's handlers, so
/// handlers are dispatched in registration order; every other name keeps
/// its handlers, the count grows by one and the error callback stays.
pub proof fn registration_appends_in_order<H, C>(
    v: BusView<H, C>,
    name: Seq<char>,
    handler: H,
    once: bool,
)
    requires
        v.wf(),
        v.can_register(),
    ensures
        entries_of(v.register(name, handler, once).topics, name) == entries_of(v.topics, name).push(
            Entry { sub: SubscriptionView { id: v.next_id, event: name }, handler, once },
        ),
        forall|m: Seq<char>|
            m != name ==> entries_of(#[trigger] v.register(name, handler, once).topics, m)
                == entries_of(v.topics, m),
        total(v.register(name, handler, once).topics) == total(v.topics) + 1,
        v.register(name, handler, once).on_error == v.on_error,
{
    let w = v.register(name, handler, once);
    crate::model::lemma_register_wf(v, name, handler, once);
    lemma_topic_index(v.topics, name);
    let i = topic_index(v.topics, name);
    let j = if i >= 0 { i } else { v.topics.len() as int };
    lemma_topic_index_unique(w.topics, name, j);
    if i < 0 {
        assert(seq![Entry { sub: SubscriptionView { id: v.next_id, event: name }, handler, once }]
            =~= Seq::<Entry<H>>::empty().push(Entry { sub: SubscriptionView { id: v.next_id, event: name }, handler, once }));
    }
    assert forall|m: Seq<char>| m != name implies entries_of(#[trigger] v.register(name, handler, once).topics, m)
        == entries_of(v.topics, m) by {
        lemma_topic_index(v.topics, m);
        lemma_topic_index(w.topics, m);
        if topic_index(v.topics, m) >= 0 {
            let a = topic_index(v.topics, m);
            assert(w.topics[a] == v.topics[a]);
            lemma_topic_index_unique(w.topics, m, a);
        } else if topic_index(w.topics, m) >= 0 {
            let a = topic_index(w.topics, m);
            assert(a != j);
            assert(w.topics[a] == v.topics[a]);
        }
    }
}

/// Removing a subscription twice: the second removal finds nothing and
/// changes nothing.
pub proof fn unsubscribe_twice_is_noop<H, C>(v: BusView<H, C>, sub: SubscriptionView)
    requires
        v.wf(),
    ensures
        !v.unsubscribe(sub).holds(sub),
        v.unsubscribe(sub).unsubscribe(sub) == v.unsubscribe(sub),
{
    let w = v.unsubscribe(sub);
    lemma_topic_index(v.topics, sub.event);
    if v.holds(sub) {
        let i = topic_index(v.topics, sub.event);
        let k = crate::model::entry_index(v.topics[i].entries, sub.id);
        lemma_entry_index(v.topics[i].entries, sub.id);
        lemma_topic_index_unique(w.topics, sub.event, i);
        let es = w.topics[i].entries;
        assert(topic_ok(v.topics[i], v.next_id));
        assert forall|j: int| 0 <= j < es.len() implies #[trigger] es[j].sub.id != sub.id by {
            if j < k {
                assert(es[j] == v.topics[i].entries[j]);
            } else {
                assert(es[j] == v.topics[i].entries[j + 1]);
            }
        }
        lemma_entry_index(es, sub.id);
    }
}

/// Removing the subscription that a registration just returned undoes the
/// registration: every event name has the handlers it had before, the full
/// subscriber list and the count are back where they were, and the error
/// callback is untouched.
pub proof fn unsubscribe_undoes_register<H, C>(
    v: BusView<H, C>,
    name: Seq<char>,
    handler: H,
    once: bool,
)
    requires
        v.wf(),
        v.can_register(),
    ensures
        v.register(name, handler, once).holds(SubscriptionView { id: v.next_id, event: name }),
        forall|m: Seq<char>|
            entries_of(
                #[trigger] v.register(name, handler, once).unsubscribe(
                    SubscriptionView { id: v.next_id, event: name },
                ).topics,
                m,
            ) == entries_of(v.topics, m),
        total(
            v.register(name, handler, once).unsubscribe(
                SubscriptionView { id: v.next_id, event: name },
            ).topics,
        ) == total(v.topics),
        all_entries(
            v.register(name, handler, once).unsubscribe(
                SubscriptionView { id: v.next_id, event: name },
            ).topics,
        ) == all_entries(v.topics),
        v.register(name, handler, once).unsubscribe(
            SubscriptionView { id: v.next_id, event: name },
        ).on_error == v.on_error,
{
    let sub = SubscriptionView { id: v.next_id, event: name };
    let w = v.register(name, handler, once);
    let u = w.unsubscribe(sub);
    crate::model::lemma_register_wf(v, name, handler, once);
    crate::model::lemma_unsubscribe_wf(w, sub);
    lemma_topic_index(v.topics, name);
    let i = topic_index(v.topics, name);
    let j = if i >= 0 { i } else { v.topics.len() as int };
    lemma_topic_index_unique(w.topics, name, j);
    let n = w.topics[j].entries.len() - 1;
    assert(w.topics[j].entries[n].sub.id == v.next_id);
    assert(topic_ok(w.topics[j], w.next_id));
    crate::model::lemma_entry_index_unique(w.topics[j], w.next_id, n);
    assert(w.holds(sub));
    assert(u.topics[j].entries =~= if i >= 0 { v.topics[i].entries } else { Seq::empty() });
    if i >= 0 {
        assert(u.topics =~= v.topics);
    } else {
        assert(u.topics =~= v.topics.push(Topic { name, entries: Seq::empty() }));
        assert(u.topics.drop_last() =~= v.topics);
        assert(all_entries(v.topics) + Seq::<Entry<H>>::empty() =~= all_entries(v.topics));
    }
    assert forall|m: Seq<char>| entries_of(#[trigger] w.unsubscribe(sub).topics, m) == entries_of(v.topics, m) by {
        lemma_topic_index(v.topics, m);
        lemma_topic_index(u.topics, m);
        if m == name {
            lemma_topic_index_unique(u.topics, m, j);
        } else if topic_index(v.topics, m) >= 0 {
            let a = topic_index(v.topics, m);
            assert(u.topics[a] == v.topics[a]);
            lemma_topic_index_unique(u.topics, m, a);
        } else if topic_index(u.topics, m) >= 0 {
            let a = topic_index(u.topics, m);
            assert(a != j);
            assert(u.topics[a] == v.topics[a]);
        }
    }
}

/// After a topic is dropped it has no handlers; every other event name
/// keeps its handlers, and the count falls by the number dropped.
pub proof fn drop_topic_removes_only_that_name<H, C>(v: BusView<H, C>, name: Seq<char>)
    requires
        v.wf(),
    ensures
        entries_of(v.drop_topic(name).topics, name) == Seq::<Entry<H>>::empty(),
        forall|m: Seq<char>|
            m != name ==> entries_of(#[trigger] v.drop_topic(name).topics, m) == entries_of(v.topics, m),
        total(v.drop_topic(name).topics) == total(v.topics) - entries_of(v.topics, name).len(),
{
    crate::model::lemma_drop_topic_wf(v, name);
    let w = v.drop_topic(name);
    let i = topic_index(v.topics, name);
    lemma_topic_index(v.topics, name);
    lemma_topic_index(w.topics, name);
    if topic_index(w.topics, name) >= 0 {
        let a = topic_index(w.topics, name);
        assert(w.topics[a] == v.topics[if a < i { a } else { a + 1 }]);
    }
    assert forall|m: Seq<char>| m != name implies entries_of(#[trigger] v.drop_topic(name).topics, m) == entries_of(v.topics, m) by {
        lemma_topic_index(v.topics, m);
        lemma_topic_index(w.topics, m);
        if topic_index(v.topics, m) >= 0 {
            let a = topic_index(v.topics, m);
            let b = if i >= 0 && a > i { a - 1 } else { a };
            assert(w.topics[b] == v.topics[a]);
            lemma_topic_index_unique(w.topics, m, b);
        } else if topic_index(w.topics, m) >= 0 {
            let b = topic_index(w.topics, m);
            if i >= 0 {
                assert(w.topics[b] == v.topics[if b < i { b } else { b + 1 }]);
            } else {
                assert(w.topics[b] == v.topics[b]);
            }
        }
    }
}

/// A cleared bus has no handlers under any name; it keeps its error
/// callback and its id counter, so later ids are still fresh.
pub proof fn cleared_bus_is_empty<H, C>(v: BusView<H, C>)
    ensures
        total(v.cleared().topics) == 0,
        v.cleared().on_error == v.on_error,
        v.cleared().next_id == v.next_id,
        forall|m: Seq<char>| entries_of(#[trigger] v.cleared().topics, m) == Seq::<Entry<H>>::empty(),
{
    assert forall|m: Seq<char>| entries_of(#[trigger] v.cleared().topics, m) == Seq::<Entry<H>>::empty() by {
        lemma_topic_index(v.cleared().topics, m);
    }
}

/// The handler count is the length of the full subscriber list.
pub proof fn total_counts_all_entries<H>(topics: Seq<Topic<H>>)
    ensures
        total(topics) == all_entries(topics).len(),
    decreases topics.len(),
{
    if topics.len() > 0 {
        total_counts_all_entries(topics.drop_last());
    }
}

/// The handlers listed under a name all carry that name.
pub proof fn entries_carry_their_name<H, C>(v: BusView<H, C>, name: Seq<char>)
    requires
        v.wf(),
    ensures
        forall|k: int|
            0 <= k < entries_of(v.topics, name).len() ==> #[trigger] entries_of(v.topics, name)[k].sub.event
                == name,
{
    lemma_topic_index(v.topics, name);
    if topic_index(v.topics, name) >= 0 {
        assert(topic_ok(v.topics[topic_index(v.topics, name)], v.next_id));
    }
}

/// Dispatching keeps exactly the entries that are not one-shot, in order.
pub proof fn persistent_keeps_the_regular_handlers<H>(entries: Seq<Entry<H>>)
    ensures
        persistent(entries) == entries.filter(|e: Entry<H>| !e.once),
    decreases entries.len(),
{
    reveal_with_fuel(Seq::<_>::filter, 1);
    if entries.len() > 0 {
        persistent_keeps_the_regular_handlers(entries.drop_last());
    }
}

proof fn lemma_persistent_add<H>(a: Seq<Entry<H>>, b: Seq<Entry<H>>)
    ensures
        persistent(a + b) == persistent(a) + persistent(b),
    decreases b.len(),
{
    if b.len() == 0 {
        assert(a + b =~= a);
        assert(persistent(a) + persistent(b) =~= persistent(a));
    } else {
        assert((a + b).drop_last() =~= a + b.drop_last());
        lemma_persistent_add(a, b.drop_last());
        if !b.last() .once {
            assert((persistent(a) + persistent(b.drop_last())).push(b.last()) =~= persistent(a) + persistent(b.drop_last()).push(b.last()));
        }
    }
}

proof fn lemma_persistent_idempotent<H>(s: Seq<Entry<H>>)
    ensures
        persistent(persistent(s)) == persistent(s),
        forall|k: int| 0 <= k < persistent(s).len() ==> !(#[trigger] persistent(s)[k]).once,
    decreases s.len(),
{
    if s.len() > 0 {
        lemma_persistent_idempotent(s.drop_last());
        let r = persistent(s.drop_last());
        if !s.last().once {
            assert(r.push(s.last()).drop_last() =~= r);
        }
    }
}

proof fn lemma_fire_entries<H, C>(v: BusView<H, C>, name: Seq<char>, m: Seq<char>)
    requires
        v.wf(),
    ensures
        entries_of(crate::model::fire_topic(v.topics, name), m) == if m == name {
            persistent(entries_of(v.topics, m))
        } else {
            entries_of(v.topics, m)
        },
{
    lemma_fire_topic_wf(v, name);
    lemma_topic_index(v.topics, name);
    lemma_topic_index(v.topics, m);
    if m != name && topic_index(v.topics, m) >= 0 && topic_index(v.topics, name) >= 0 {
        assert(v.topics[topic_index(v.topics, m)].name != name);
    }
}

/// What an emit of `name` dispatches: the handlers under `name`, then the
/// firehose handlers; each carries `name` or the wildcard, and every
/// firehose handler is among them, whatever `name` is. Emitting the
/// wildcard itself dispatches the firehose handlers once.
pub proof fn dispatch_reaches_only_matching_handlers<H, C>(v: BusView<H, C>, name: Seq<char>)
    requires
        v.wf(),
    ensures
        forall|k: int|
            0 <= k < v.plan(name).len() ==> {
                ||| (#[trigger] v.plan(name)[k]).sub.event == name
                ||| v.plan(name)[k].sub.event == WILDCARD@
            },
        forall|k: int|
            0 <= k < entries_of(v.topics, WILDCARD@).len() ==> v.plan(name).contains(
                #[trigger] entries_of(v.topics, WILDCARD@)[k],
            ),
        v.plan(WILDCARD@) == entries_of(v.topics, WILDCARD@),
{
    entries_carry_their_name(v, name);
    entries_carry_their_name(v, WILDCARD@);
    let first: Seq<Entry<H>> = if name != WILDCARD@ { entries_of(v.topics, name) } else { Seq::empty() };
    assert forall|k: int| 0 <= k < v.plan(name).len() implies {
        ||| (#[trigger] v.plan(name)[k]).sub.event == name
        ||| v.plan(name)[k].sub.event == WILDCARD@
    } by {
        if k < first.len() {
            assert(v.plan(name)[k] == entries_of(v.topics, name)[k]);
        } else {
            assert(v.plan(name)[k] == entries_of(v.topics, WILDCARD@)[k - first.len()]);
        }
    }
    assert(Seq::<Entry<H>>::empty() + entries_of(v.topics, WILDCARD@) =~= entries_of(v.topics, WILDCARD@));
    assert forall|k: int| 0 <= k < entries_of(v.topics, WILDCARD@).len() implies v.plan(name).contains(
        #[trigger] entries_of(v.topics, WILDCARD@)[k],
    ) by {
        assert(v.plan(name)[first.len() + k] == entries_of(v.topics, WILDCARD@)[k]);
    }
}

/// One-shot handlers fire at most once: after an emit of `name`, the
/// handlers a second emit of `name` would reach are the first emit's minus
/// its one-shot handlers, and none of them is one-shot. Handlers under
/// every other name (the firehose aside) are untouched.
pub proof fn one_shot_handlers_fire_once<H, C>(v: BusView<H, C>, name: Seq<char>)
    requires
        v.wf(),
    ensures
        v.after_dispatch(name).wf(),
        v.after_dispatch(name).plan(name) == persistent(v.plan(name)),
        forall|k: int|
            0 <= k < v.after_dispatch(name).plan(name).len() ==> !(
            #[trigger] v.after_dispatch(name).plan(name)[k]).once,
        forall|m: Seq<char>|
            m != name && m != WILDCARD@ ==> entries_of(#[trigger] v.after_dispatch(name).topics, m)
                == entries_of(v.topics, m),
{
    let w = v.after_dispatch(name);
    let ts = if name != WILDCARD@ { crate::model::fire_topic(v.topics, name) } else { v.topics };
    let v1 = BusView { topics: ts, on_error: v.on_error, next_id: v.next_id };
    if name != WILDCARD@ {
        lemma_fire_topic_wf(v, name);
        lemma_fire_entries(v, name, name);
        lemma_fire_entries(v, name, WILDCARD@);
    }
    assert(v1.wf());
    lemma_fire_topic_wf(v1, WILDCARD@);
    lemma_fire_entries(v1, WILDCARD@, name);
    lemma_fire_entries(v1, WILDCARD@, WILDCARD@);
    let a: Seq<Entry<H>> = if name != WILDCARD@ { entries_of(v.topics, name) } else { Seq::empty() };
    let b = entries_of(v.topics, WILDCARD@);
    lemma_persistent_add(a, b);
    assert(persistent(Seq::<Entry<H>>::empty()) =~= Seq::<Entry<H>>::empty());
    assert(w.plan(name) == persistent(a) + persistent(b));
    lemma_persistent_idempotent(v.plan(name));
    assert forall|m: Seq<char>| m != name && m != WILDCARD@ implies entries_of(#[trigger] v.after_dispatch(name).topics, m)
        == entries_of(v.topics, m) by {
        lemma_fire_entries(v1, WILDCARD@, m);
        if name != WILDCARD@ {
            lemma_fire_entries(v, name, m);
        }
    }
}

/// Error reports match failed handlers one for one: each reported
/// subscription belongs to a dispatched handler that failed, there are as
/// many reports as failures, and a dispatch without failures reports none.
pub proof fn failures_match_failed_handlers<H>(plan: Seq<Entry<H>>, outcomes: Seq<bool>)
    requires
        plan.len() == outcomes.len(),
    ensures
        failures(plan, outcomes).len() == outcomes.filter(|b: bool| b).len(),
        forall|j: int|
            0 <= j < failures(plan, outcomes).len() ==> exists|i: int|
                0 <= i < plan.len() && outcomes[i] && plan[i].sub == #[trigger] failures(
                    plan,
                    outcomes,
                )[j],
        (forall|i: int| 0 <= i < outcomes.len() ==> !outcomes[i]) ==> failures(plan, outcomes)
            == Seq::<SubscriptionView>::empty(),
    decreases plan.len(),
{
    reveal_with_fuel(Seq::<_>::filter, 1);
    if plan.len() > 0 {
        let p0 = plan.drop_last();
        let o0 = outcomes.drop_last();
        failures_match_failed_handlers(p0, o0);
        let f = failures(plan, outcomes);
        let f0 = failures(p0, o0);
        assert forall|j: int| 0 <= j < f.len() implies exists|i: int|
            0 <= i < plan.len() && outcomes[i] && plan[i].sub == #[trigger] f[j] by {
            if j < f0.len() {
                let i = choose|i: int| 0 <= i < p0.len() && o0[i] && p0[i].sub == #[trigger] f0[j];
                assert(plan[i] == p0[i] && outcomes[i] == o0[i]);
                assert(f[j] == f0[j]);
            } else {
                let i = plan.len() - 1;
                assert(outcomes[i] == outcomes.last());
                assert(plan[i] == plan.last());
            }
        }
        if forall|i: int| 0 <= i < outcomes.len() ==> !outcomes[i] {
            assert forall|i: int| 0 <= i < o0.len() implies !o0[i] by {
                assert(o0[i] == outcomes[i]);
            }
            assert(!outcomes[outcomes.len() - 1]);
        }
    }
}

/// The entries registered under `n`, as a filter on entries.
pub open spec fn named<H>(n: Seq<char>) -> spec_fn(Entry<H>) -> bool {
    |e: Entry<H>| e.sub.event == n
}

proof fn lemma_filter_ext<A>(s: Seq<A>, p: spec_fn(A) -> bool, r: spec_fn(A) -> bool)
    requires
        forall|i: int| 0 <= i < s.len() ==> p(#[trigger] s[i]) == r(s[i]),
    ensures
        s.filter(p) == s.filter(r),
    decreases s.len(),
{
    reveal_with_fuel(Seq::<_>::filter, 1);
    if s.len() > 0 {
        assert forall|i: int| 0 <= i < s.drop_last().len() implies p(#[trigger] s.drop_last()[i]) == r(s.drop_last()[i]) by {
            assert(s.drop_last()[i] == s[i]);
        }
        lemma_filter_ext(s.drop_last(), p, r);
        assert(s.last() == s[s.len() - 1]);
    }
}

proof fn lemma_filter_all<A>(s: Seq<A>, p: spec_fn(A) -> bool)
    requires
        forall|i: int| 0 <= i < s.len() ==> p(#[trigger] s[i]),
    ensures
        s.filter(p) == s,
    decreases s.len(),
{
    reveal_with_fuel(Seq::<_>::filter, 1);
    if s.len() > 0 {
        assert forall|i: int| 0 <= i < s.drop_last().len() implies p(#[trigger] s.drop_last()[i]) by {
            assert(s.drop_last()[i] == s[i]);
        }
        lemma_filter_all(s.drop_last(), p);
        assert(s[s.len() - 1] == s.last());
        assert(s.drop_last().push(s.last()) =~= s);
    }
}

proof fn lemma_filter_none<A>(s: Seq<A>, p: spec_fn(A) -> bool)
    requires
        forall|i: int| 0 <= i < s.len() ==> !p(#[trigger] s[i]),
    ensures
        s.filter(p) == Seq::<A>::empty(),
    decreases s.len(),
{
    reveal_with_fuel(Seq::<_>::filter, 1);
    if s.len() > 0 {
        assert forall|i: int| 0 <= i < s.drop_last().len() implies !p(#[trigger] s.drop_last()[i]) by {
            assert(s.drop_last()[i] == s[i]);
        }
        lemma_filter_none(s.drop_last(), p);
        assert(s[s.len() - 1] == s.last());
    }
}

/// The topic list is a well-formed one's: distinct names, entries that
/// carry their topic's name.
spec fn named_topics<H>(ts: Seq<Topic<H>>) -> bool {
    &&& forall|i: int, j: int| 0 <= i < j < ts.len() ==> ts[i].name != ts[j].name
    &&& forall|i: int, k: int|
        0 <= i < ts.len() && 0 <= k < ts[i].entries.len() ==> (#[trigger] ts[i].entries[k]).sub.event
            == ts[i].name
}

proof fn lemma_wf_named<H, C>(v: BusView<H, C>)
    requires
        v.wf(),
    ensures
        named_topics(v.topics),
{
    assert forall|i: int, k: int|
        0 <= i < v.topics.len() && 0 <= k < v.topics[i].entries.len() implies (#[trigger] v.topics[i].entries[k]).sub.event
            == v.topics[i].name by {
        assert(topic_ok(v.topics[i], v.next_id));
    }
}

proof fn lemma_entries_of_drop_last<H>(ts: Seq<Topic<H>>, n: Seq<char>)
    requires
        named_topics(ts),
        ts.len() > 0,
    ensures
        named_topics(ts.drop_last()),
        ts.last().name == n ==> entries_of(ts, n) == ts.last().entries && entries_of(ts.drop_last(), n)
            == Seq::<Entry<H>>::empty(),
        ts.last().name != n ==> entries_of(ts, n) == entries_of(ts.drop_last(), n),
{
    let d = ts.drop_last();
    assert forall|i: int, k: int|
        0 <= i < d.len() && 0 <= k < d[i].entries.len() implies (#[trigger] d[i].entries[k]).sub.event == d[i].name by {
        assert(d[i] == ts[i]);
    }
    lemma_topic_index(ts, n);
    lemma_topic_index(d, n);
    if ts.last().name == n {
        lemma_topic_index_unique(ts, n, ts.len() - 1);
        if topic_index(d, n) >= 0 {
            assert(d[topic_index(d, n)] == ts[topic_index(d, n)]);
        }
    } else if topic_index(d, n) >= 0 {
        assert(d[topic_index(d, n)] == ts[topic_index(d, n)]);
        lemma_topic_index_unique(ts, n, topic_index(d, n));
    } else if topic_index(ts, n) >= 0 {
        assert(topic_index(ts, n) < d.len());
        assert(d[topic_index(ts, n)] == ts[topic_index(ts, n)]);
    }
}

proof fn lemma_filter_named<H>(ts: Seq<Topic<H>>, n: Seq<char>)
    requires
        named_topics(ts),
    ensures
        all_entries(ts).filter(named(n)) == entries_of(ts, n),
    decreases ts.len(),
{
    if ts.len() == 0 {
        lemma_topic_index(ts, n);
        lemma_filter_none(all_entries(ts), named(n));
    } else {
        lemma_entries_of_drop_last(ts, n);
        lemma_filter_named(ts.drop_last(), n);
        let last = ts.last();
        assert(last == ts[ts.len() - 1]);
        Seq::filter_distributes_over_add(all_entries(ts.drop_last()), last.entries, named(n));
        if last.name == n {
            lemma_filter_all(last.entries, named(n));
            assert(Seq::<Entry<H>>::empty() + last.entries =~= last.entries);
        } else {
            lemma_filter_none(last.entries, named(n));
            assert(entries_of(ts.drop_last(), n) + Seq::<Entry<H>>::empty() =~= entries_of(ts.drop_last(), n));
        }
    }
}

/// The full subscriber list, narrowed to one name, is that name's list:
/// the same entries in the same order. So the per-name counts add up to
/// the total.
pub proof fn full_list_narrows_to_name_list<H, C>(v: BusView<H, C>, n: Seq<char>)
    requires
        v.wf(),
    ensures
        all_entries(v.topics).filter(named(n)) == entries_of(v.topics, n),
        all_entries(v.topics).len() == total(v.topics),
{
    lemma_wf_named(v);
    lemma_filter_named(v.topics, n);
    total_counts_all_entries(v.topics);
}

spec fn in_some_topic<H>(ts: Seq<Topic<H>>, x: Entry<H>) -> bool {
    exists|i: int, k: int| 0 <= i < ts.len() && 0 <= k < ts[i].entries.len() && #[trigger] ts[i].entries[k] == x
}

proof fn lemma_all_entries_drawn<H>(ts: Seq<Topic<H>>)
    ensures
        forall|a: int| 0 <= a < all_entries(ts).len() ==> in_some_topic(ts, #[trigger] all_entries(ts)[a]),
    decreases ts.len(),
{
    if ts.len() > 0 {
        let d = ts.drop_last();
        lemma_all_entries_drawn(d);
        assert forall|a: int| 0 <= a < all_entries(ts).len() implies in_some_topic(ts, #[trigger] all_entries(ts)[a]) by {
            let x = all_entries(ts)[a];
            if a < all_entries(d).len() {
                assert(x == all_entries(d)[a]);
                assert(in_some_topic(d, all_entries(d)[a]));
                let (i, k) = choose|i: int, k: int|
                    0 <= i < d.len() && 0 <= k < d[i].entries.len() && #[trigger] d[i].entries[k] == x;
                assert(ts[i] == d[i]);
                assert(ts[i].entries[k] == x);
            } else {
                let k = a - all_entries(d).len();
                assert(x == ts.last().entries[k]);
                assert(ts[ts.len() - 1] == ts.last());
                assert(ts[ts.len() - 1].entries[k] == x);
            }
        }
    }
}

proof fn lemma_all_ids_distinct<H>(ts: Seq<Topic<H>>, n: u64)
    requires
        forall|i: int| 0 <= i < ts.len() ==> #[trigger] topic_ok(ts[i], n),
        forall|i: int, j: int| 0 <= i < ts.len() && 0 <= j < ts.len() && i != j ==> #[trigger] ids_apart(ts[i], ts[j]),
    ensures
        forall|a: int, b: int|
            0 <= a < b < all_entries(ts).len() ==> all_entries(ts)[a].sub.id != all_entries(ts)[b].sub.id,
    decreases ts.len(),
{
    if ts.len() > 0 {
        let d = ts.drop_last();
        assert forall|i: int| 0 <= i < d.len() implies #[trigger] topic_ok(d[i], n) by {
            assert(d[i] == ts[i]);
        }
        assert forall|i: int, j: int| 0 <= i < d.len() && 0 <= j < d.len() && i != j implies #[trigger] ids_apart(d[i], d[j]) by {
            assert(d[i] == ts[i] && d[j] == ts[j]);
            assert(ids_apart(ts[i], ts[j]));
        }
        lemma_all_ids_distinct(d, n);
        lemma_all_entries_drawn(d);
        let last = ts.last();
        assert(last == ts[ts.len() - 1]);
        assert(topic_ok(last, n));
        let all = all_entries(ts);
        let m = all_entries(d).len();
        assert forall|a: int, b: int| 0 <= a < b < all.len() implies all[a].sub.id != all[b].sub.id by {
            if b < m {
                assert(all[a] == all_entries(d)[a] && all[b] == all_entries(d)[b]);
            } else if a >= m {
                assert(all[a] == last.entries[a - m] && all[b] == last.entries[b - m]);
            } else {
                assert(all[a] == all_entries(d)[a]);
                assert(all[b] == last.entries[b - m]);
                assert(in_some_topic(d, all_entries(d)[a]));
                let (i, k) = choose|i: int, k: int|
                    0 <= i < d.len() && 0 <= k < d[i].entries.len() && #[trigger] d[i].entries[k] == all_entries(d)[a];
                assert(d[i] == ts[i]);
                assert(ids_apart(ts[i], ts[ts.len() - 1]));
                assert(ts[i].entries[k].sub.id != ts[ts.len() - 1].entries[b - m].sub.id);
            }
        }
    }
}

/// No two subscriptions on a well-formed bus share an id, whatever names
/// they were registered under.
pub proof fn subscription_ids_are_distinct<H, C>(v: BusView<H, C>)
    requires
        v.wf(),
    ensures
        forall|a: int, b: int|
            0 <= a < b < all_entries(v.topics).len() ==> all_entries(v.topics)[a].sub.id
                != all_entries(v.topics)[b].sub.id,
{
    lemma_all_ids_distinct(v.topics, v.next_id);
}

/// The id counter never goes back: a registration moves it up by one, and
/// no other operation (removal of one handler, of a name, of everything,
/// a dispatch, a new error callback) changes it. Since every id handed
/// out is the counter's value at the time, ids are never reused, removed
/// ones included.
pub proof fn id_counter_never_goes_back<H, C>(
    v: BusView<H, C>,
    name: Seq<char>,
    handler: H,
    once: bool,
    sub: SubscriptionView,
    cb: Option<C>,
)
    requires
        v.can_register(),
    ensures
        v.register(name, handler, once).next_id == v.next_id + 1,
        v.unsubscribe(sub).next_id == v.next_id,
        v.drop_topic(name).next_id == v.next_id,
        v.cleared().next_id == v.next_id,
        v.after_dispatch(name).next_id == v.next_id,
        v.with_on_error(cb).next_id == v.next_id,
{
}

/// The entries an emit of `name` keeps: all but the one-shot handlers
/// registered under `name` or the wildcard.
pub open spec fn survives<H>(name: Seq<char>) -> spec_fn(Entry<H>) -> bool {
    |e: Entry<H>| !(e.once && (e.sub.event == name || e.sub.event == WILDCARD@))
}

spec fn spared<H>(n: Seq<char>) -> spec_fn(Entry<H>) -> bool {
    |e: Entry<H>| !(e.once && e.sub.event == n)
}

proof fn lemma_filter_twice<A>(s: Seq<A>, p: spec_fn(A) -> bool, r: spec_fn(A) -> bool, q: spec_fn(A) -> bool)
    requires
        forall|x: A| #[trigger] q(x) == (p(x) && r(x)),
    ensures
        s.filter(p).filter(r) == s.filter(q),
    decreases s.len(),
{
    reveal_with_fuel(Seq::<_>::filter, 1);
    if s.len() > 0 {
        lemma_filter_twice(s.drop_last(), p, r, q);
        assert(q(s.last()) == (p(s.last()) && r(s.last())));
        if p(s.last()) {
            assert(s.filter(p).drop_last() =~= s.drop_last().filter(p));
            assert(s.filter(p).last() == s.last());
        } else {
            assert(s.filter(p) == s.drop_last().filter(p));
        }
    }
}

proof fn lemma_fire_all<H>(ts: Seq<Topic<H>>, n: Seq<char>)
    requires
        named_topics(ts),
    ensures
        all_entries(fire_topic(ts, n)) == all_entries(ts).filter(spared(n)),
    decreases ts.len(),
{
    lemma_topic_index(ts, n);
    if ts.len() == 0 {
        lemma_filter_none(all_entries(ts), spared(n));
    } else {
        let d = ts.drop_last();
        let last = ts.last();
        assert(last == ts[ts.len() - 1]);
        lemma_entries_of_drop_last(ts, n);
        lemma_fire_all(d, n);
        lemma_topic_index(d, n);
        Seq::filter_distributes_over_add(all_entries(d), last.entries, spared(n));
        let f = fire_topic(ts, n);
        if last.name == n {
            lemma_topic_index_unique(ts, n, ts.len() - 1);
            if topic_index(d, n) >= 0 {
                assert(d[topic_index(d, n)] == ts[topic_index(d, n)]);
            }
            assert(fire_topic(d, n) == d);
            assert(f.drop_last() =~= d);
            crate::laws::persistent_keeps_the_regular_handlers(last.entries);
            lemma_filter_ext(last.entries, |e: Entry<H>| !e.once, spared(n));
        } else {
            if topic_index(d, n) >= 0 {
                assert(d[topic_index(d, n)] == ts[topic_index(d, n)]);
                lemma_topic_index_unique(ts, n, topic_index(d, n));
            } else if topic_index(ts, n) >= 0 {
                assert(d[topic_index(ts, n)] == ts[topic_index(ts, n)]);
            }
            assert(f.drop_last() =~= fire_topic(d, n));
            assert(f.last() == last);
            lemma_filter_all(last.entries, spared(n));
        }
    }
}



proof fn lemma_fires_compose<H>(ts: Seq<Topic<H>>, ts1: Seq<Topic<H>>, name: Seq<char>)
    requires
        named_topics(ts),
        named_topics(ts1),
        ts1 == fire_topic(ts, name),
    ensures
        all_entries(fire_topic(ts1, WILDCARD@)) == all_entries(ts).filter(survives(name)),
{
    lemma_fire_all(ts, name);
    lemma_fire_all(ts1, WILDCARD@);
    assert forall|x: Entry<H>| #[trigger] survives(name)(x) == (spared(name)(x) && spared(WILDCARD@)(x)) by {}
    lemma_filter_twice(all_entries(ts), spared(name), spared(WILDCARD@), survives(name));
}

proof fn lemma_fire_wildcard_only<H>(ts: Seq<Topic<H>>)
    requires
        named_topics(ts),
    ensures
        all_entries(fire_topic(ts, WILDCARD@)) == all_entries(ts).filter(survives(WILDCARD@)),
{
    lemma_fire_all(ts, WILDCARD@);
    lemma_filter_ext(all_entries(ts), spared(WILDCARD@), survives(WILDCARD@));
}

/// What an emit of `name` leaves: the full subscriber list minus the
/// one-shot handlers it dispatched (those under `name` and the firehose),
/// in the same order. The error callback and the id counter stay.
pub proof fn emit_drops_exactly_its_one_shots<H, C>(v: BusView<H, C>, name: Seq<char>)
    requires
        v.wf(),
    ensures
        all_entries(v.after_dispatch(name).topics) == all_entries(v.topics).filter(survives(name)),
        v.after_dispatch(name).on_error == v.on_error,
        v.after_dispatch(name).next_id == v.next_id,
{
    lemma_wf_named(v);
    if name != WILDCARD@ {
        lemma_fire_topic_wf(v, name);
        let v1 = BusView { topics: fire_topic(v.topics, name), on_error: v.on_error, next_id: v.next_id };
        lemma_wf_named(v1);
        lemma_fires_compose(v.topics, v1.topics, name);
    } else {
        lemma_fire_wildcard_only(v.topics);
    }
}

/// One operation on the bus, as the model sees it.
pub enum Step<H, C> {
    Register(Seq<char>, H, bool),
    Unsubscribe(SubscriptionView),
    DropTopic(Seq<char>),
    Clear,
    Dispatch(Seq<char>),
    SetOnError(Option<C>),
}

/// The bus after one operation.
pub open spec fn apply<H, C>(v: BusView<H, C>, step: Step<H, C>) -> BusView<H, C> {
    match step {
        Step::Register(name, handler, once) => v.register(name, handler, once),
        Step::Unsubscribe(sub) => v.unsubscribe(sub),
        Step::DropTopic(name) => v.drop_topic(name),
        Step::Clear => v.cleared(),
        Step::Dispatch(name) => v.after_dispatch(name),
        Step::SetOnError(cb) => v.with_on_error(cb),
    }
}

/// The bus after a history of operations, oldest first.
pub open spec fn apply_all<H, C>(v: BusView<H, C>, steps: Seq<Step<H, C>>) -> BusView<H, C>
    decreases steps.len(),
{
    if steps.len() == 0 {
        v
    } else {
        apply_all(apply(v, steps[0]), steps.drop_first())
    }
}

/// Every registration in the history had room (the machine limit that
/// `on` and `on_once` require).
pub open spec fn history_ok<H, C>(v: BusView<H, C>, steps: Seq<Step<H, C>>) -> bool
    decreases steps.len(),
{
    steps.len() == 0 || ((steps[0] is Register ==> v.can_register()) && history_ok(
        apply(v, steps[0]),
        steps.drop_first(),
    ))
}

/// The ids the registrations of the history hand out, in order.
pub open spec fn issued<H, C>(v: BusView<H, C>, steps: Seq<Step<H, C>>) -> Seq<u64>
    decreases steps.len(),
{
    if steps.len() == 0 {
        Seq::empty()
    } else {
        let first: Seq<u64> = if steps[0] is Register {
            seq![v.next_id]
        } else {
            Seq::empty()
        };
        first + issued(apply(v, steps[0]), steps.drop_first())
    }
}

/// Over any history of operations (removals, clearing, dispatches and new
/// callbacks included), the ids handed out strictly increase, start at or
/// above the counter the history began with (so above every id then on a
/// well-formed bus), and stay below the counter it ends with: no id is
/// ever handed out twice, and clearing the bus does not reset ids.
pub proof fn ids_never_reused<H, C>(v: BusView<H, C>, steps: Seq<Step<H, C>>)
    requires
        history_ok(v, steps),
    ensures
        forall|a: int, b: int|
            0 <= a < b < issued(v, steps).len() ==> issued(v, steps)[a] < issued(v, steps)[b],
        forall|a: int|
            0 <= a < issued(v, steps).len() ==> v.next_id <= #[trigger] issued(v, steps)[a]
                < apply_all(v, steps).next_id,
        v.next_id <= apply_all(v, steps).next_id,
    decreases steps.len(),
{
    if steps.len() > 0 {
        let w = apply(v, steps[0]);
        let rest = steps.drop_first();
        ids_never_reused(w, rest);
        assert(w.next_id == v.next_id || (steps[0] is Register && w.next_id == v.next_id + 1));
        let first: Seq<u64> = if steps[0] is Register { seq![v.next_id] } else { Seq::empty() };
        let all = issued(v, steps);
        assert(all == first + issued(w, rest));
        assert forall|a: int| 0 <= a < all.len() implies v.next_id <= #[trigger] all[a] < apply_all(v, steps).next_id by {
            if a < first.len() {
                assert(all[a] == v.next_id);
                if issued(w, rest).len() == 0 {
                    assert(w.next_id <= apply_all(w, rest).next_id);
                }
            } else {
                assert(all[a] == issued(w, rest)[a - first.len()]);
            }
        }
        assert forall|a: int, b: int| 0 <= a < b < all.len() implies all[a] < all[b] by {
            if a < first.len() {
                assert(all[b] == issued(w, rest)[b - first.len()]);
            } else {
                assert(all[a] == issued(w, rest)[a - first.len()]);
                assert(all[b] == issued(w, rest)[b - first.len()]);
            }
        }
    }
}

proof fn lemma_entries_of_in_all<H>(ts: Seq<Topic<H>>, n: Seq<char>)
    requires
        named_topics(ts),
    ensures
        forall|k: int|
            0 <= k < entries_of(ts, n).len() ==> all_entries(ts).contains(#[trigger] entries_of(ts, n)[k]),
{
    lemma_filter_named(ts, n);
    assert forall|k: int| 0 <= k < entries_of(ts, n).len() implies all_entries(ts).contains(#[trigger] entries_of(ts, n)[k]) by {
        let x = entries_of(ts, n)[k];
        assert(all_entries(ts).filter(named(n)).contains(x)) by {
            assert(all_entries(ts).filter(named(n))[k] == x);
        }
        all_entries(ts).lemma_filter_contains_rev(named(n), x);
    }
}

/// A one-shot handler dispatched by an emit is gone afterwards: no later
/// emit, of any name, dispatches it again.
pub proof fn dispatched_one_shot_never_dispatched_again<H, C>(
    v: BusView<H, C>,
    name: Seq<char>,
    m: Seq<char>,
    e: Entry<H>,
)
    requires
        v.wf(),
        v.plan(name).contains(e),
        e.once,
    ensures
        !v.after_dispatch(name).plan(m).contains(e),
{
    let w = v.after_dispatch(name);
    emit_drops_exactly_its_one_shots(v, name);
    one_shot_handlers_fire_once(v, name);
    dispatch_reaches_only_matching_handlers(v, name);
    let j = choose|j: int| 0 <= j < v.plan(name).len() && v.plan(name)[j] == e;
    assert(e.sub.event == name || e.sub.event == WILDCARD@);
    lemma_wf_named(w);
    if w.plan(m).contains(e) {
        let k = choose|k: int| 0 <= k < w.plan(m).len() && w.plan(m)[k] == e;
        let first: Seq<Entry<H>> = if m != WILDCARD@ { entries_of(w.topics, m) } else { Seq::empty() };
        lemma_entries_of_in_all(w.topics, m);
        lemma_entries_of_in_all(w.topics, WILDCARD@);
        if k < first.len() {
            assert(w.plan(m)[k] == entries_of(w.topics, m)[k]);
        } else {
            assert(w.plan(m)[k] == entries_of(w.topics, WILDCARD@)[k - first.len()]);
        }
        assert(all_entries(w.topics).contains(e));
        let a = choose|a: int| 0 <= a < all_entries(w.topics).len() && all_entries(w.topics)[a] == e;
        all_entries(v.topics).lemma_filter_pred(survives(name), a);
        assert(survives(name)(e));
    }
}

proof fn lemma_all_entries_keep<H>(ts: Seq<Topic<H>>, p: spec_fn(Entry<H>) -> bool)
    requires
        forall|j: int| 0 <= j < ts.len() ==> (#[trigger] ts[j]).entries.filter(p) == ts[j].entries,
    ensures
        all_entries(ts).filter(p) == all_entries(ts),
    decreases ts.len(),
{
    reveal_with_fuel(Seq::<_>::filter, 1);
    if ts.len() > 0 {
        let d = ts.drop_last();
        assert forall|j: int| 0 <= j < d.len() implies (#[trigger] d[j]).entries.filter(p) == d[j].entries by {
            assert(d[j] == ts[j]);
        }
        lemma_all_entries_keep(d, p);
        assert(ts.last() == ts[ts.len() - 1]);
        Seq::filter_distributes_over_add(all_entries(d), ts.last().entries, p);
    }
}

/// Replacing one topic's entries by their filter, with every other topic
/// already kept whole by the filter, filters the full list.
proof fn lemma_all_entries_filter_update<H>(
    ts: Seq<Topic<H>>,
    i: int,
    t: Topic<H>,
    p: spec_fn(Entry<H>) -> bool,
)
    requires
        0 <= i < ts.len(),
        t.entries == ts[i].entries.filter(p),
        forall|j: int| 0 <= j < ts.len() && j != i ==> (#[trigger] ts[j]).entries.filter(p) == ts[j].entries,
    ensures
        all_entries(ts.update(i, t)) == all_entries(ts).filter(p),
    decreases ts.len(),
{
    let d = ts.drop_last();
    let u = ts.update(i, t);
    assert(ts.last() == ts[ts.len() - 1]);
    Seq::filter_distributes_over_add(all_entries(d), ts.last().entries, p);
    if i == ts.len() - 1 {
        assert(u.drop_last() =~= d);
        assert forall|j: int| 0 <= j < d.len() implies (#[trigger] d[j]).entries.filter(p) == d[j].entries by {
            assert(d[j] == ts[j]);
        }
        lemma_all_entries_keep(d, p);
        assert(u.last() == t);
    } else {
        assert(u.drop_last() =~= d.update(i, t));
        assert forall|j: int| 0 <= j < d.len() && j != i implies (#[trigger] d[j]).entries.filter(p) == d[j].entries by {
            assert(d[j] == ts[j]);
        }
        lemma_all_entries_filter_update(d, i, t, p);
        assert(u.last() == ts.last());
    }
}

/// Removing a topic that the filter empties, with every other topic kept
/// whole, filters the full list.
proof fn lemma_all_entries_filter_remove<H>(ts: Seq<Topic<H>>, i: int, p: spec_fn(Entry<H>) -> bool)
    requires
        0 <= i < ts.len(),
        ts[i].entries.filter(p) == Seq::<Entry<H>>::empty(),
        forall|j: int| 0 <= j < ts.len() && j != i ==> (#[trigger] ts[j]).entries.filter(p) == ts[j].entries,
    ensures
        all_entries(ts.remove(i)) == all_entries(ts).filter(p),
    decreases ts.len(),
{
    let d = ts.drop_last();
    assert(ts.last() == ts[ts.len() - 1]);
    Seq::filter_distributes_over_add(all_entries(d), ts.last().entries, p);
    if i == ts.len() - 1 {
        assert(ts.remove(i) =~= d);
        assert forall|j: int| 0 <= j < d.len() implies (#[trigger] d[j]).entries.filter(p) == d[j].entries by {
            assert(d[j] == ts[j]);
        }
        lemma_all_entries_keep(d, p);
        assert(all_entries(d) + Seq::<Entry<H>>::empty() =~= all_entries(d));
    } else {
        assert(ts.remove(i).drop_last() =~= d.remove(i));
        assert(ts.remove(i).last() == ts.last());
        assert forall|j: int| 0 <= j < d.len() && j != i implies (#[trigger] d[j]).entries.filter(p) == d[j].entries by {
            assert(d[j] == ts[j]);
        }
        lemma_all_entries_filter_remove(d, i, p);
    }
}

/// Filtering out exactly one element removes it in place, keeping the
/// others in order.
proof fn lemma_filter_one_out<A>(s: Seq<A>, k: int, p: spec_fn(A) -> bool)
    requires
        0 <= k < s.len(),
        !p(s[k]),
        forall|j: int| 0 <= j < s.len() && j != k ==> p(#[trigger] s[j]),
    ensures
        s.filter(p) == s.remove(k),
    decreases s.len(),
{
    reveal_with_fuel(Seq::<_>::filter, 1);
    let d = s.drop_last();
    assert(s.last() == s[s.len() - 1]);
    if k == s.len() - 1 {
        assert forall|j: int| 0 <= j < d.len() implies p(#[trigger] d[j]) by {
            assert(d[j] == s[j]);
        }
        lemma_filter_all(d, p);
        assert(s.remove(k) =~= d);
    } else {
        assert forall|j: int| 0 <= j < d.len() && j != k implies p(#[trigger] d[j]) by {
            assert(d[j] == s[j]);
        }
        assert(d[k] == s[k]);
        lemma_filter_one_out(d, k, p);
        assert(s.remove(k) =~= d.remove(k).push(s.last()));
    }
}

/// The entries that do not stand for `sub`.
pub open spec fn other_than<H>(sub: SubscriptionView) -> spec_fn(Entry<H>) -> bool {
    |e: Entry<H>| e.sub != sub
}

/// Removing a subscription takes exactly its handler out of the full
/// subscriber list and keeps every other handler where it was (so each
/// name's handlers stay in registration order); the bus held it exactly
/// when some handler on the bus stands for it.
pub proof fn unsubscribe_removes_exactly_that_handler<H, C>(v: BusView<H, C>, sub: SubscriptionView)
    requires
        v.wf(),
    ensures
        all_entries(v.unsubscribe(sub).topics) == all_entries(v.topics).filter(other_than(sub)),
        v.holds(sub) <==> exists|a: int|
            0 <= a < all_entries(v.topics).len() && (#[trigger] all_entries(v.topics)[a]).sub == sub,
{
    let ts = v.topics;
    let p = other_than::<H>(sub);
    lemma_wf_named(v);
    lemma_topic_index(ts, sub.event);
    let i = topic_index(ts, sub.event);
    assert forall|j: int| 0 <= j < ts.len() && j != i implies (#[trigger] ts[j]).entries.filter(p) == ts[j].entries by {
        assert forall|m: int| 0 <= m < ts[j].entries.len() implies p(#[trigger] ts[j].entries[m]) by {
            assert(ts[j].entries[m].sub.event == ts[j].name);
            if i >= 0 {
                assert(ts[j].name != ts[i].name);
            }
        }
        lemma_filter_all(ts[j].entries, p);
    }
    lemma_all_entries_drawn(ts);
    if i >= 0 {
        let es = ts[i].entries;
        assert(topic_ok(ts[i], v.next_id));
        lemma_entry_index(es, sub.id);
        if v.holds(sub) {
            let k = crate::model::entry_index(es, sub.id);
            assert(es[k].sub.event == sub.event);
            assert(!p(es[k]));
            assert forall|j: int| 0 <= j < es.len() && j != k implies p(#[trigger] es[j]) by {
                if j < k {
                    assert(es[j].sub.id != es[k].sub.id);
                } else {
                    assert(es[k].sub.id != es[j].sub.id);
                }
            }
            lemma_filter_one_out(es, k, p);
            let t = Topic { name: ts[i].name, entries: es.remove(k) };
            lemma_all_entries_filter_update(ts, i, t, p);
            lemma_filter_named(ts, sub.event);
            // the held entry is on the full list
            assert(all_entries(ts).filter(named(sub.event)) == es);
            assert(all_entries(ts).filter(named(sub.event)).contains(es[k])) by {
                assert(all_entries(ts).filter(named(sub.event))[k] == es[k]);
            }
            all_entries(ts).lemma_filter_contains_rev(named(sub.event), es[k]);
        } else {
            assert forall|m: int| 0 <= m < es.len() implies p(#[trigger] es[m]) by {}
            lemma_filter_all(es, p);
            lemma_all_entries_keep(ts, p);
            assert forall|a: int| 0 <= a < all_entries(ts).len() implies (#[trigger] all_entries(ts)[a]).sub != sub by {
                let x = all_entries(ts)[a];
                assert(in_some_topic(ts, x));
                let (j, m) = choose|j: int, m: int| 0 <= j < ts.len() && 0 <= m < ts[j].entries.len() && #[trigger] ts[j].entries[m] == x;
                if j != i {
                    assert(p(ts[j].entries[m]));
                }
            }
        }
    } else {
        lemma_all_entries_keep(ts, p);
        assert forall|a: int| 0 <= a < all_entries(ts).len() implies (#[trigger] all_entries(ts)[a]).sub != sub by {
            let x = all_entries(ts)[a];
            assert(in_some_topic(ts, x));
            let (j, m) = choose|j: int, m: int| 0 <= j < ts.len() && 0 <= m < ts[j].entries.len() && #[trigger] ts[j].entries[m] == x;
            assert(ts[j].entries[m].sub.event == ts[j].name);
        }
    }
}

/// Dropping a name removes exactly that name's handlers from the full
/// subscriber list and keeps every other handler, in order.
pub proof fn drop_topic_keeps_the_rest_in_order<H, C>(v: BusView<H, C>, name: Seq<char>)
    requires
        v.wf(),
    ensures
        all_entries(v.drop_topic(name).topics) == all_entries(v.topics).filter(|e: Entry<H>| e.sub.event != name),
{
    let ts = v.topics;
    let p = |e: Entry<H>| e.sub.event != name;
    lemma_wf_named(v);
    lemma_topic_index(ts, name);
    let i = topic_index(ts, name);
    assert forall|j: int| 0 <= j < ts.len() && j != i implies (#[trigger] ts[j]).entries.filter(p) == ts[j].entries by {
        assert forall|m: int| 0 <= m < ts[j].entries.len() implies p(#[trigger] ts[j].entries[m]) by {
            assert(ts[j].entries[m].sub.event == ts[j].name);
            if i >= 0 {
                assert(ts[j].name != ts[i].name);
            }
        }
        lemma_filter_all(ts[j].entries, p);
    }
    if i >= 0 {
        assert forall|m: int| 0 <= m < ts[i].entries.len() implies !p(#[trigger] ts[i].entries[m]) by {
            assert(ts[i].entries[m].sub.event == ts[i].name);
        }
        lemma_filter_none(ts[i].entries, p);
        lemma_all_entries_filter_remove(ts, i, p);
    } else {
        lemma_all_entries_keep(ts, p);
    }
}

/// An emit of a name other than the wildcard dispatches, in order, the
/// full subscriber list's handlers for that name and then its firehose
/// handlers; an emit of the wildcard dispatches the firehose handlers. So
/// dispatch follows registration order within each name.
pub proof fn plan_follows_the_full_list<H, C>(v: BusView<H, C>, name: Seq<char>)
    requires
        v.wf(),
    ensures
        name != WILDCARD@ ==> v.plan(name) == all_entries(v.topics).filter(named(name)) + all_entries(
            v.topics,
        ).filter(named(WILDCARD@)),
        name == WILDCARD@ ==> v.plan(name) == all_entries(v.topics).filter(named(WILDCARD@)),
{
    lemma_wf_named(v);
    lemma_filter_named(v.topics, name);
    lemma_filter_named(v.topics, WILDCARD@);
    assert(Seq::<Entry<H>>::empty() + entries_of(v.topics, WILDCARD@) =~= entries_of(v.topics, WILDCARD@));
}

/// Room to register depends only on the machine limits: an id below
/// `u64::MAX` is left, and fewer than `usize::MAX` handlers are on the bus.
pub proof fn room_to_register_is_only_the_machine_limits<H, C>(v: BusView<H, C>)
    ensures
        v.can_register() <==> (v.next_id < u64::MAX && all_entries(v.topics).len() < usize::MAX),
{
    total_counts_all_entries(v.topics);
}

} // verus!
