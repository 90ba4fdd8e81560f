# agent_event_bus

Tiny in-process publish/subscribe for agent loop events, with its registry
and dispatch logic verified by Verus.

- `src/event.rs`: `Subscription` handles, `Event`s and the `WILDCARD` name.
- `src/model.rs`: the model of a bus (topics of handler entries, in
  registration order), the operations as spec functions, and supporting lemmas.
- `src/bus.rs`: `EventBus<H, C>`, generic over the handler type `H` and the
  error callback type `C`, with well-formedness as a type invariant.
  Registration, removal, listing and dispatch are proved against the model.
  `emit` takes a state and two runners from the caller: one calls a handler
  and says whether it failed, the other calls the error callback. The state
  is threaded through every call, and the contract records the whole run:
  one call per dispatched handler, in dispatch order, then one call per
  failed subscription, in order, when a callback is installed, and nothing
  else.
- `src/laws.rs`: properties that span operations (ids increase, are never
  distinct across the bus; removal is idempotent and undoes
  registration; the full subscriber list narrows to each name's list; an
  emit drops exactly the one-shot handlers it dispatched and never dispatches
  them again; dispatch reaches only matching handlers; failures match failed
  handlers one for one; ids are never reused over any history of calls).
- `app/lib.rs`: the thread-safe front end with `&self` methods behind a
  mutex, boxed closures, and `catch_unwind` around each handler.
