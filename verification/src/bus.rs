//! The subscriber registry and its dispatch logic.

use crate::event::{Event, Subscription, SubscriptionView, WILDCARD};
use crate::model::{
    emit_trace, lemma_run_trace_concat, report_trace, run_trace, entries_of, fire_topic, lemma_drop_topic_wf, lemma_entry_index, lemma_entry_index_unique,
    lemma_failures_add, lemma_fire_topic_wf, lemma_register_wf, lemma_topic_index,
    lemma_next_id_grow, lemma_total_prefix, lemma_total_push, lemma_total_update, lemma_unsubscribe_wf,
    lemma_subs_of_add, all_entries, failures, persistent, subs_of, topic_index, topic_ok, total,
    views_of, BusView, Entry, Topic,
};
use serde_json::Value;
use vstd::prelude::*;

verus! {

struct Slot<H> {
    sub: Subscription,
    handler: H,
    once: bool,
}

impl<H> Slot<H> {
    spec fn view(&self) -> Entry<H> {
        Entry { sub: self.sub@, handler: self.handler, once: self.once }
    }
}

struct Bucket<H> {
    name: String,
    slots: Vec<Slot<H>>,
}

spec fn entries_view<H>(slots: Seq<Slot<H>>) -> Seq<Entry<H>> {
    slots.map_values(|s: Slot<H>| s.view())
}

impl<H> Bucket<H> {
    spec fn view(&self) -> Topic<H> {
        Topic { name: self.name@, entries: entries_view(self.slots@) }
    }
}

spec fn topics_view<H>(buckets: Seq<Bucket<H>>) -> Seq<Topic<H>> {
    buckets.map_values(|b: Bucket<H>| b.view())
}

/// In-process publish/subscribe bus.
///
/// `H` is the handler type and `C` the error callback type; the bus stores
/// them and hands them back to the caller-supplied runners in `emit`.
pub struct EventBus<H, C> {
    buckets: Vec<Bucket<H>>,
    on_error: Option<C>,
    next_id: u64,
}

impl<H, C> View for EventBus<H, C> {
    type V = BusView<H, C>;

    closed spec fn view(&self) -> BusView<H, C> {
        BusView { topics: topics_view(self.buckets@), on_error: self.on_error, next_id: self.next_id }
    }
}

impl<H, C> EventBus<H, C> {
    /// Every bus is well formed (see [`BusView::wf`]).
    #[verifier::type_invariant]
    spec fn inv(&self) -> bool {
        self@.wf()
    }

    /// Well-formedness of the bus (see [`BusView::wf`]); it always holds.
    pub open spec fn wf(&self) -> bool {
        self@.wf()
    }

    /// Create a new empty bus.
    pub fn new() -> (bus: Self)
        ensures
            bus.wf(),
            bus@.topics == Seq::<Topic<H>>::empty(),
            bus@.on_error is None,
            bus@.next_id == 1,
    {
        let buckets: Vec<Bucket<H>> = Vec::new();
        assert(topics_view(buckets@) =~= Seq::<Topic<H>>::empty());
        EventBus { buckets, on_error: None, next_id: 1 }
    }


    /// Whether one more handler can be registered: an id is left and the
    /// handler count still fits in a `usize`.
    pub fn can_register(&self) -> (r: bool)
        ensures
            r == self@.can_register(),
    {
        proof {
            use_type_invariant(&*self);
        }
        self.next_id < u64::MAX && self.len() < usize::MAX
    }

    /// Register `handler` for `event_name`; it fires on every later emit of
    /// that name (of every name, for the wildcard).
    pub fn on(&mut self, event_name: &str, handler: H) -> (sub: Subscription)
        requires
            old(self)@.can_register(),
        ensures
            final(self).wf(),
            final(self)@ == old(self)@.register(event_name@, handler, false),
            sub@ == (SubscriptionView { id: old(self)@.next_id, event: event_name@ }),
            total(final(self)@.topics) == total(old(self)@.topics) + 1,
    {
        proof {
            use_type_invariant(&*self);
        }
        self.register(event_name, handler, false)
    }

    /// Register a one-shot handler: it is removed from the bus once it has
    /// been dispatched.
    pub fn on_once(&mut self, event_name: &str, handler: H) -> (sub: Subscription)
        requires
            old(self)@.can_register(),
        ensures
            final(self).wf(),
            final(self)@ == old(self)@.register(event_name@, handler, true),
            sub@ == (SubscriptionView { id: old(self)@.next_id, event: event_name@ }),
            total(final(self)@.topics) == total(old(self)@.topics) + 1,
    {
        proof {
            use_type_invariant(&*self);
        }
        self.register(event_name, handler, true)
    }

    fn register(&mut self, event_name: &str, handler: H, once: bool) -> (sub: Subscription)
        requires
            old(self).wf(),
            old(self)@.can_register(),
        ensures
            final(self).wf(),
            final(self)@ == old(self)@.register(event_name@, handler, once),
            sub@ == (SubscriptionView { id: old(self)@.next_id, event: event_name@ }),
            total(final(self)@.topics) == total(old(self)@.topics) + 1,
    {
        let ghost pre = self@;
        let name = event_name.to_owned();
        let found = self.find_topic(&name);
        let id = self.next_id;
        let sub = Subscription::new(id, name.clone());
        let slot = Slot { sub: sub.clone(), handler, once };
        let ghost e = slot.view();
        proof {
            lemma_topic_index(pre.topics, name@);
            lemma_register_wf(pre, event_name@, handler, once);
            lemma_next_id_grow(pre);
        }
        let mut buckets = self.take_buckets();
        self.next_id = id + 1;
        match found {
            Some(i) => {
                proof {
                    let t = Topic { name: name@, entries: pre.topics[i as int].entries.push(e) };
                    lemma_total_update(pre.topics, i as int, t);
                }
                Self::push_slot(&mut buckets, i, slot);
            },
            None => {
                let mut slots = Vec::new();
                slots.push(slot);
                let bucket = Bucket { name, slots };
                proof {
                    assert(entries_view(bucket.slots@) =~= seq![e]);
                    let t = Topic { name: event_name@, entries: seq![e] };
                    assert(topics_view(buckets@.push(bucket)) =~= pre.topics.push(t));
                    lemma_total_push(pre.topics, t);
                }
                buckets.push(bucket);
            },
        }
        assert(topics_view(buckets@) == pre.register(event_name@, handler, once).topics);
        self.buckets = buckets;
        assert(self@ == pre.register(event_name@, handler, once));
        proof {
            lemma_register_wf(pre, event_name@, handler, once);
        }
        sub
    }

    /// Install the error callback, replacing any earlier one.
    pub fn set_on_error(&mut self, cb: C)
        ensures
            final(self).wf(),
            final(self)@ == old(self)@.with_on_error(Some(cb)),
    {
        proof {
            use_type_invariant(&*self);
        }
        self.on_error = Some(cb);
    }

    /// Remove any installed error callback.
    pub fn clear_on_error(&mut self)
        ensures
            final(self).wf(),
            final(self)@ == old(self)@.with_on_error(None),
    {
        proof {
            use_type_invariant(&*self);
        }
        self.on_error = None;
    }

    /// Remove the handler of `sub`. Returns `true` if it was found and
    /// removed, `false` if it was already gone.
    pub fn off(&mut self, sub: Subscription) -> (removed: bool)
        ensures
            final(self).wf(),
            removed == old(self)@.holds(sub@),
            final(self)@ == old(self)@.unsubscribe(sub@),
            total(final(self)@.topics) == total(old(self)@.topics) - (if removed { 1int } else { 0 }),
    {
        proof {
            use_type_invariant(&*self);
        }
        let ghost pre = self@;
        proof {
            lemma_unsubscribe_wf(pre, sub@);
            lemma_topic_index(pre.topics, sub@.event);
        }
        let name = sub.event().to_owned();
        let id = sub.id();
        match self.find_topic(&name) {
            Some(i) => match Self::find_slot(&self.buckets[i].slots, id) {
                Some(k) => {
                    proof {
                        assert(pre.topics[i as int].entries[k as int].sub.id == id);
                        assert(topic_ok(pre.topics[i as int], pre.next_id));
                        lemma_entry_index_unique(pre.topics[i as int], pre.next_id, k as int);
                        let t = Topic {
                            name: pre.topics[i as int].name,
                            entries: pre.topics[i as int].entries.remove(k as int),
                        };
                        assert(pre.unsubscribe(sub@) == (BusView {
                            topics: pre.topics.update(i as int, t),
                            on_error: pre.on_error,
                            next_id: pre.next_id,
                        }));
                    }
                    let mut buckets = self.take_buckets();
                    Self::remove_slot(&mut buckets, i, k);
                    self.buckets = buckets;
                    true
                },
                None => {
                    proof {
                        lemma_entry_index(pre.topics[i as int].entries, id);
                    }
                    false
                },
            },
            None => false,
        }
    }

    /// Move the buckets out, leaving an empty (and so well-formed) bus.
    fn take_buckets(&mut self) -> (b: Vec<Bucket<H>>)
        ensures
            b@ == old(self).buckets@,
            final(self)@ == (BusView::<H, C> {
                topics: Seq::empty(),
                on_error: old(self)@.on_error,
                next_id: old(self)@.next_id,
            }),
    {
        proof {
            use_type_invariant(&*self);
            assert(topics_view(Seq::<Bucket<H>>::empty()) =~= Seq::<Topic<H>>::empty());
        }
        let mut b: Vec<Bucket<H>> = Vec::new();
        std::mem::swap(&mut b, &mut self.buckets);
        b
    }

    fn push_slot(buckets: &mut Vec<Bucket<H>>, i: usize, slot: Slot<H>)
        requires
            i < old(buckets)@.len(),
        ensures
            topics_view(final(buckets)@) == topics_view(old(buckets)@).update(
                i as int,
                Topic {
                    name: topics_view(old(buckets)@)[i as int].name,
                    entries: topics_view(old(buckets)@)[i as int].entries.push(slot.view()),
                },
            ),
    {
        let ghost e = slot.view();
        buckets[i].slots.push(slot);
        proof {
            assert(entries_view(buckets@[i as int].slots@) =~= entries_view(old(buckets)@[i as int].slots@).push(e));
            assert(topics_view(buckets@) =~= topics_view(old(buckets)@).update(
                i as int,
                Topic {
                    name: topics_view(old(buckets)@)[i as int].name,
                    entries: topics_view(old(buckets)@)[i as int].entries.push(e),
                },
            ));
        }
    }

    fn remove_slot(buckets: &mut Vec<Bucket<H>>, i: usize, k: usize)
        requires
            i < old(buckets)@.len(),
            k < old(buckets)@[i as int].slots@.len(),
        ensures
            topics_view(final(buckets)@) == topics_view(old(buckets)@).update(
                i as int,
                Topic {
                    name: topics_view(old(buckets)@)[i as int].name,
                    entries: topics_view(old(buckets)@)[i as int].entries.remove(k as int),
                },
            ),
    {
        buckets[i].slots.remove(k);
        proof {
            assert(entries_view(buckets@[i as int].slots@) =~= entries_view(old(buckets)@[i as int].slots@).remove(k as int));
            assert(topics_view(buckets@) =~= topics_view(old(buckets)@).update(
                i as int,
                Topic {
                    name: topics_view(old(buckets)@)[i as int].name,
                    entries: topics_view(old(buckets)@)[i as int].entries.remove(k as int),
                },
            ));
        }
    }

    fn drop_once_at(buckets: &mut Vec<Bucket<H>>, i: usize)
        requires
            i < old(buckets)@.len(),
        ensures
            topics_view(final(buckets)@) == topics_view(old(buckets)@).update(
                i as int,
                Topic {
                    name: topics_view(old(buckets)@)[i as int].name,
                    entries: persistent(topics_view(old(buckets)@)[i as int].entries),
                },
            ),
    {
        Self::drop_once(&mut buckets[i].slots);
        proof {
            assert(topics_view(buckets@) =~= topics_view(old(buckets)@).update(
                i as int,
                Topic {
                    name: topics_view(old(buckets)@)[i as int].name,
                    entries: persistent(topics_view(old(buckets)@)[i as int].entries),
                },
            ));
        }
    }

    fn find_slot(slots: &Vec<Slot<H>>, id: u64) -> (r: Option<usize>)
        ensures
            match r {
                Some(k) => k < slots@.len() && slots@[k as int].sub@.id == id,
                None => forall|k: int| 0 <= k < slots@.len() ==> slots@[k].sub@.id != id,
            },
    {
        let mut k: usize = 0;
        while k < slots.len()
            invariant
                k <= slots@.len(),
                forall|j: int| 0 <= j < k ==> slots@[j].sub@.id != id,
            decreases slots@.len() - k,
        {
            if slots[k].sub.id() == id {
                return Some(k);
            }
            k += 1;
        }
        None
    }

    /// Remove every handler registered against `event_name`. Returns the
    /// number removed.
    pub fn off_event(&mut self, event_name: &str) -> (removed: usize)
        ensures
            final(self).wf(),
            removed == entries_of(old(self)@.topics, event_name@).len(),
            final(self)@ == old(self)@.drop_topic(event_name@),
            total(final(self)@.topics) == total(old(self)@.topics) - removed,
    {
        proof {
            use_type_invariant(&*self);
        }
        let ghost pre = self@;
        proof {
            lemma_drop_topic_wf(pre, event_name@);
            lemma_topic_index(pre.topics, event_name@);
        }
        let name = event_name.to_owned();
        match self.find_topic(&name) {
            Some(i) => {
                let removed = self.buckets[i].slots.len();
                let mut buckets = self.take_buckets();
                proof {
                    assert(topics_view(buckets@.remove(i as int)) =~= pre.topics.remove(i as int));
                }
                buckets.remove(i);
                self.buckets = buckets;
                removed
            },
            None => 0,
        }
    }

    /// Remove every handler on the bus. Returns the number removed.
    pub fn off_all(&mut self) -> (removed: usize)
        ensures
            final(self).wf(),
            removed == total(old(self)@.topics),
            final(self)@ == old(self)@.cleared(),
    {
        proof {
            use_type_invariant(&*self);
        }
        let removed = self.len();
        let _ = self.take_buckets();
        removed
    }

    /// Total number of handlers across every event name, the firehose
    /// included.
    pub fn len(&self) -> (n: usize)
        ensures
            n == total(self@.topics),
    {
        proof {
            use_type_invariant(&*self);
        }
        let mut n: usize = 0;
        let mut i: usize = 0;
        while i < self.buckets.len()
            invariant
                self.wf(),
                i <= self.buckets@.len(),
                n == total(self@.topics.take(i as int)),
            decreases self.buckets@.len() - i,
        {
            proof {
                assert(self@.topics.take(i + 1).drop_last() =~= self@.topics.take(i as int));
                lemma_total_prefix(self@.topics, i + 1);
            }
            n = n + self.buckets[i].slots.len();
            i += 1;
        }
        assert(self@.topics.take(i as int) =~= self@.topics);
        n
    }

    /// `true` if no handlers are registered.
    pub fn is_empty(&self) -> (r: bool)
        ensures
            r == (total(self@.topics) == 0),
    {
        proof {
            use_type_invariant(&*self);
        }
        self.len() == 0
    }

    /// The handles registered against `event_name`, in registration order;
    /// with `None`, every handle on the bus, topic by topic.
    pub fn subscribers(&self, event_name: Option<&str>) -> (subs: Vec<Subscription>)
        ensures
            views_of(subs@) == match event_name {
                Some(name) => subs_of(entries_of(self@.topics, name@)),
                None => subs_of(all_entries(self@.topics)),
            },
    {
        proof {
            use_type_invariant(&*self);
        }
        let mut out: Vec<Subscription> = Vec::new();
        match event_name {
            Some(name) => {
                let key = name.to_owned();
                proof {
                    lemma_topic_index(self@.topics, name@);
                }
                match self.find_topic(&key) {
                    Some(i) => {
                        Self::append_subs(&self.buckets[i].slots, &mut out);
                        assert(views_of(out@) =~= subs_of(entries_of(self@.topics, name@)));
                    },
                    None => {
                        assert(views_of(out@) =~= subs_of(entries_of(self@.topics, name@)));
                    },
                }
            },
            None => {
                let mut i: usize = 0;
                assert(views_of(out@) =~= subs_of(all_entries(self@.topics.take(0))));
                while i < self.buckets.len()
                    invariant
                        i <= self.buckets@.len(),
                        views_of(out@) == subs_of(all_entries(self@.topics.take(i as int))),
                    decreases self.buckets@.len() - i,
                {
                    let ghost before = out@;
                    Self::append_subs(&self.buckets[i].slots, &mut out);
                    proof {
                        let ts = self@.topics;
                        assert(ts.take(i + 1).drop_last() =~= ts.take(i as int));
                        lemma_subs_of_add(all_entries(ts.take(i as int)), ts[i as int].entries);
                        assert(views_of(out@) =~= views_of(before) + subs_of(ts[i as int].entries));
                    }
                    i += 1;
                }
                assert(self@.topics.take(i as int) =~= self@.topics);
            },
        }
        out
    }

    fn append_subs(slots: &Vec<Slot<H>>, out: &mut Vec<Subscription>)
        ensures
            views_of(final(out)@) == views_of(old(out)@) + subs_of(entries_view(slots@)),
    {
        let ghost start = out@;
        let mut k: usize = 0;
        while k < slots.len()
            invariant
                k <= slots@.len(),
                views_of(out@) == views_of(start) + subs_of(entries_view(slots@.take(k as int))),
            decreases slots@.len() - k,
        {
            let ghost before = out@;
            out.push(slots[k].sub.clone());
            proof {
                assert(entries_view(slots@.take(k + 1)) =~= entries_view(slots@.take(k as int)).push(slots@[k as int].view()));
                assert(views_of(out@) =~= views_of(before).push(slots@[k as int].sub@));
                assert(subs_of(entries_view(slots@.take(k + 1))) =~= subs_of(entries_view(slots@.take(k as int))).push(slots@[k as int].sub@));
            }
            k += 1;
        }
        assert(slots@.take(k as int) =~= slots@);
    }

    /// Dispatch `event`: call `run` once on each handler of
    /// [`BusView::plan`], in order, threading `state` through the calls;
    /// `run` also says whether the handler failed. Then drop the one-shot
    /// handlers among them. Returns the subscriptions whose handler failed,
    /// in dispatch order, and the final state.
    pub fn dispatch<S, F>(&mut self, event: &Event, state: S, run: F) -> (r: (Vec<Subscription>, S))
        where
            F: Fn(S, &H, &Event) -> (S, bool),
        requires
            forall|s: S, h: &H, e: &Event| call_requires(run, (s, h, e)),
        ensures
            final(self).wf(),
            final(self)@ == old(self)@.after_dispatch(event.name@),
            exists|states: Seq<S>, outcomes: Seq<bool>|
                {
                    &&& run_trace(run, old(self)@.plan(event.name@), *event, state, states, outcomes)
                    &&& r.1 == states.last()
                    &&& views_of(r.0@) == failures(old(self)@.plan(event.name@), outcomes)
                },
    {
        proof {
            use_type_invariant(&*self);
        }
        let ghost pre = self@;
        let ghost name = event.name@;
        let star = WILDCARD.to_owned();
        let exact = if event.name == star {
            None
        } else {
            self.find_topic(&event.name)
        };
        let wild = self.find_topic(&star);
        proof {
            lemma_topic_index(pre.topics, name);
            lemma_topic_index(pre.topics, WILDCARD@);
        }
        let mut failed: Vec<Subscription> = Vec::new();
        let ghost first: Seq<Entry<H>> = if name != WILDCARD@ {
            entries_of(pre.topics, name)
        } else {
            Seq::empty()
        };
        let ghost second: Seq<Entry<H>> = entries_of(pre.topics, WILDCARD@);
        let ghost s0 = state;
        let mut st = state;
        let ghost init1: Seq<S> = seq![s0];
        let mut st1: Ghost<Seq<S>> = Ghost(init1);
        let mut out1: Ghost<Seq<bool>> = Ghost(Seq::empty());
        match exact {
            Some(i) => {
                let (s, g1, g2) = Self::fire(&self.buckets[i].slots, event, st, &run, &mut failed);
                st = s;
                st1 = g1;
                out1 = g2;
            },
            None => {},
        }
        assert(run_trace(run, first, *event, s0, st1@, out1@));
        assert(views_of(failed@) == failures(first, out1@)) by {
            assert(views_of(Seq::<Subscription>::empty()) =~= Seq::<SubscriptionView>::empty());
        }
        let ghost mid = failed@;
        let ghost s1 = st;
        let ghost init2: Seq<S> = seq![s1];
        let mut st2: Ghost<Seq<S>> = Ghost(init2);
        let mut out2: Ghost<Seq<bool>> = Ghost(Seq::empty());
        match wild {
            Some(j) => {
                let (s, g1, g2) = Self::fire(&self.buckets[j].slots, event, st, &run, &mut failed);
                st = s;
                st2 = g1;
                out2 = g2;
            },
            None => {},
        }
        assert(run_trace(run, second, *event, s1, st2@, out2@));
        assert(views_of(failed@) == failures(first, out1@) + failures(second, out2@)) by {
            if wild.is_none() {
                assert(failures(second, out2@) =~= Seq::<SubscriptionView>::empty());
                assert(failed@ == mid);
            }
        }
        proof {
            lemma_failures_add(first, out1@, second, out2@);
            assert(pre.plan(name) == first + second);
            lemma_run_trace_concat(run, first, second, *event, s0, st1@, out1@, st2@, out2@);
            assert(st == st2@.last());
        }
        let ghost step1 = if name != WILDCARD@ {
            fire_topic(pre.topics, name)
        } else {
            pre.topics
        };
        let ghost v1 = BusView { topics: step1, on_error: pre.on_error, next_id: pre.next_id };
        proof {
            if name != WILDCARD@ {
                lemma_fire_topic_wf(pre, name);
            }
            lemma_fire_topic_wf(v1, WILDCARD@);
        }
        let mut buckets = self.take_buckets();
        match exact {
            Some(i) => {
                Self::drop_once_at(&mut buckets, i);
            },
            None => {},
        }
        assert(topics_view(buckets@) == step1);
        match wild {
            Some(j) => {
                Self::drop_once_at(&mut buckets, j);
            },
            None => {},
        }
        assert(topics_view(buckets@) == fire_topic(step1, WILDCARD@));
        self.buckets = buckets;
        (failed, st)
    }

    fn fire<S, F>(
        slots: &Vec<Slot<H>>,
        event: &Event,
        state: S,
        run: &F,
        failed: &mut Vec<Subscription>,
    ) -> (r: (S, Ghost<Seq<S>>, Ghost<Seq<bool>>))
        where
            F: Fn(S, &H, &Event) -> (S, bool),
        requires
            forall|s: S, h: &H, e: &Event| call_requires(*run, (s, h, e)),
        ensures
            run_trace(*run, entries_view(slots@), *event, state, r.1@, r.2@),
            r.0 == r.1@.last(),
            views_of(final(failed)@) == views_of(old(failed)@) + failures(entries_view(slots@), r.2@),
    {
        let ghost start = failed@;
        let ghost s0 = state;
        let ghost mut sts: Seq<S> = seq![state];
        let ghost mut outs: Seq<bool> = Seq::empty();
        let mut st = state;
        let mut k: usize = 0;
        while k < slots.len()
            invariant
                forall|s: S, h: &H, e: &Event| call_requires(*run, (s, h, e)),
                k <= slots@.len(),
                run_trace(*run, entries_view(slots@.take(k as int)), *event, s0, sts, outs),
                st == sts.last(),
                views_of(failed@) == views_of(start) + failures(entries_view(slots@.take(k as int)), outs),
            decreases slots@.len() - k,
        {
            let ghost before_st = st;
            let (next, bad) = run(st, &slots[k].handler, event);
            let ghost before = failed@;
            if bad {
                failed.push(slots[k].sub.clone());
            }
            proof {
                let es = entries_view(slots@.take(k + 1));
                let es0 = entries_view(slots@.take(k as int));
                assert(es.drop_last() =~= es0);
                assert(es =~= es0.push(slots@[k as int].view()));
                assert(outs.push(bad).drop_last() =~= outs);
                if bad {
                    assert(views_of(failed@) =~= views_of(before).push(slots@[k as int].sub@));
                } else {
                    assert(failed@ == before);
                }
                let sts2 = sts.push(next);
                let outs2 = outs.push(bad);
                assert(sts.last() == sts[k as int]);
                assert forall|i: int| 0 <= i < es.len() implies call_ensures(
                    *run,
                    (sts2[i], &es[i].handler, event),
                    (sts2[i + 1], #[trigger] outs2[i]),
                ) by {
                    if i < k {
                        assert(sts2[i] == sts[i] && sts2[i + 1] == sts[i + 1] && outs2[i] == outs[i] && es[i] == es0[i]);
                    } else {
                        assert(sts2[i] == before_st && sts2[i + 1] == next && outs2[i] == bad);
                        assert(es[i].handler == slots@[k as int].handler);
                    }
                }
                sts = sts2;
                outs = outs2;
            }
            st = next;
            k += 1;
        }
        assert(slots@.take(k as int) =~= slots@);
        (st, Ghost(sts), Ghost(outs))
    }

    fn drop_once(slots: &mut Vec<Slot<H>>)
        ensures
            entries_view(final(slots)@) == persistent(entries_view(old(slots)@)),
    {
        let ghost orig = slots@;
        let ghost mut k: int = 0;
        let mut i: usize = 0;
        while i < slots.len()
            invariant
                0 <= i <= k <= orig.len(),
                i <= slots@.len(),
                entries_view(slots@.take(i as int)) == persistent(entries_view(orig.take(k))),
                slots@.skip(i as int) == orig.skip(k),
            decreases slots@.len() - i,
        {
            proof {
                assert(slots@.skip(i as int).len() == orig.skip(k).len());
                assert(k < orig.len());
                assert(slots@[i as int] == orig[k]) by {
                    assert(slots@.skip(i as int)[0] == orig.skip(k)[0]);
                }
                let ev = entries_view(orig.take(k + 1));
                assert(ev.drop_last() =~= entries_view(orig.take(k)));
                assert(ev.last() == orig[k].view());
            }
            if slots[i].once {
                let ghost before = slots@;
                slots.remove(i);
                proof {
                    assert(slots@.take(i as int) =~= before.take(i as int));
                    assert(slots@.skip(i as int) =~= orig.skip(k + 1)) by {
                        assert(before.skip(i as int) == orig.skip(k));
                        assert forall|j: int| 0 <= j < slots@.skip(i as int).len() implies
                            #[trigger] slots@.skip(i as int)[j] == orig.skip(k + 1)[j] by {
                            assert(slots@[i + j] == before[i + j + 1]);
                            assert(before.skip(i as int)[j + 1] == orig.skip(k)[j + 1]);
                        }
                    }
                    k = k + 1;
                }
            } else {
                proof {
                    assert(entries_view(slots@.take(i + 1)) =~= entries_view(slots@.take(i as int)).push(slots@[i as int].view()));
                    assert(slots@.skip(i + 1) =~= orig.skip(k + 1)) by {
                        assert forall|j: int| 0 <= j < slots@.skip(i + 1).len() implies
                            #[trigger] slots@.skip(i + 1)[j] == orig.skip(k + 1)[j] by {
                            assert(slots@.skip(i as int)[j + 1] == orig.skip(k)[j + 1]);
                        }
                    }
                    k = k + 1;
                }
                i += 1;
            }
        }
        proof {
            assert(orig.skip(k).len() == 0);
            assert(k == orig.len());
            assert(orig.take(k) =~= orig);
            assert(slots@.take(i as int) =~= slots@);
        }
    }

    /// Emit an event: build it from `event_name` and `payload`, dispatch it
    /// as [`EventBus::dispatch`] does (`run` calls one handler and says
    /// whether it failed), then, if an error callback is installed, call
    /// `report` once per failed subscription, in dispatch order, with that
    /// callback. `state` is threaded through every call of `run` and then of
    /// `report`. Returns the event that was dispatched and the final state.
    pub fn emit<S, F, G>(
        &mut self,
        event_name: &str,
        payload: Value,
        state: S,
        run: F,
        report: G,
    ) -> (r: (Event, S))
        where
            F: Fn(S, &H, &Event) -> (S, bool),
            G: Fn(S, &C, &Subscription, &Event) -> S,
        requires
            forall|s: S, h: &H, e: &Event| call_requires(run, (s, h, e)),
            forall|s: S, c: &C, sub: &Subscription, e: &Event| call_requires(report, (s, c, sub, e)),
        ensures
            final(self).wf(),
            r.0.name@ == event_name@,
            r.0.payload == payload,
            final(self)@ == old(self)@.after_dispatch(event_name@),
            exists|states: Seq<S>, outcomes: Seq<bool>, reported: Seq<S>|
                #[trigger] emit_trace(
                    run,
                    report,
                    old(self)@.plan(event_name@),
                    old(self)@.on_error,
                    r.0,
                    state,
                    states,
                    outcomes,
                    reported,
                    r.1,
                ),
    {
        proof {
            use_type_invariant(&*self);
        }
        let ghost pre = self@;
        let event = Event { name: event_name.to_owned(), payload };
        let (failed, mut st) = self.dispatch(&event, state, run);
        let ghost plan = pre.plan(event.name@);
        let ghost (states, outcomes) = choose|states: Seq<S>, outcomes: Seq<bool>|
            {
                &&& run_trace(run, plan, event, state, states, outcomes)
                &&& st == states.last()
                &&& views_of(failed@) == failures(plan, outcomes)
            };
        let ghost mid = st;
        let ghost mut reported: Seq<S> = seq![mid];
        if failed.len() > 0 {
            match &self.on_error {
                Some(cb) => {
                    let mut k: usize = 0;
                    while k < failed.len()
                        invariant
                            forall|s: S, c: &C, sub: &Subscription, e: &Event|
                                call_requires(report, (s, c, sub, e)),
                            k <= failed@.len(),
                            reported.len() == k + 1,
                            reported[0] == mid,
                            st == reported.last(),
                            forall|j: int|
                                0 <= j < k ==> exists|s: Subscription|
                                    #![trigger s@]
                                    s@ == #[trigger] views_of(failed@)[j] && call_ensures(
                                        report,
                                        (reported[j], cb, &s, &event),
                                        reported[j + 1],
                                    ),
                        decreases failed@.len() - k,
                    {
                        let ghost before = st;
                        st = report(st, cb, &failed[k], &event);
                        proof {
                            assert(failed@[k as int]@ == views_of(failed@)[k as int]);
                            let r2 = reported.push(st);
                            assert(reported.last() == reported[k as int]);
                            assert forall|j: int| 0 <= j < k + 1 implies exists|s: Subscription|
                                #![trigger s@]
                                s@ == #[trigger] views_of(failed@)[j] && call_ensures(
                                    report,
                                    (r2[j], cb, &s, &event),
                                    r2[j + 1],
                                ) by {
                                if j < k {
                                    assert(r2[j] == reported[j] && r2[j + 1] == reported[j + 1]);
                                } else {
                                    assert(r2[j] == before && r2[j + 1] == st);
                                    assert(failed@[k as int]@ == views_of(failed@)[j]);
                                }
                            }
                            reported = r2;
                        }
                        k += 1;
                    }
                },
                None => {},
            }
        }
        proof {
            assert(views_of(failed@).len() == failed@.len());
            if failed@.len() == 0 {
                assert(reported.len() == 1);
            }
            assert(emit_trace(run, report, pre.plan(event_name@), pre.on_error, event, state, states, outcomes, reported, st));
        }
        let ghost ev0 = event;
        let ghost st0 = st;
        let r = (event, st);
        assert(r.0 == ev0);
        assert(r.1 == st0);
        r
    }

    fn find_topic(&self, name: &String) -> (r: Option<usize>)
        requires
            self.wf(),
        ensures
            match r {
                Some(i) => i < self.buckets@.len() && i == topic_index(self@.topics, name@),
                None => topic_index(self@.topics, name@) == -1,
            },
    {
        let mut i: usize = 0;
        while i < self.buckets.len()
            invariant
                self.wf(),
                i <= self.buckets@.len(),
                forall|j: int| 0 <= j < i ==> self@.topics[j].name != name@,
            decreases self.buckets@.len() - i,
        {
            if self.buckets[i].name == *name {
                assert(self@.topics[i as int].name == name@);
                return Some(i);
            }
            i += 1;
        }
        None
    }
}

impl<H, C> Default for EventBus<H, C> {
    /// An empty bus, as [`EventBus::new`].
    fn default() -> (bus: Self)
        ensures
            bus.wf(),
            bus@.topics == Seq::<Topic<H>>::empty(),
            bus@.on_error is None,
            bus@.next_id == 1,
    {
        Self::new()
    }
}

} // verus!
