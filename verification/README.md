# Sodium-style functional reactive programming, verified

A small FRP engine in the style of Sodium: cells (values that change over
time) and streams (events), combined with `map`, `lift2`..`lift6`, `filter`,
`snapshot`, `hold`, `split`, `defer` and friends, updated in transactions.

The engine is an arena: a `SodiumCtx` owns every node of the graph, and the
handles (`Cell`, `Stream`, `CellSink`, `StreamSink`, `Listener`, `Node`) are
indices into it. User functions are values of one type of the user's choice
that implements `IsLambda`, which also says how a value of the context's
value type reads as an optional value (for `filter_option`).

A node made inside a transaction (or next to a node already queued) is
queued with it, so that it is brought up to date in that transaction; a
cell's listener reports its cell's value by queued work instead.

Everything under `src/` is checked by Verus:

- `sodium_ctx.rs`, `node.rs`: the graph, its invariant (`graph_wf`: every node
  ranks above its dependencies, the dependents lists mirror the dependencies
  lists) and node creation;
- `graph.rs`: marking dirty exactly what a change reaches, detaching a
  listener;
- `propagate.rs`: the update loop, lowest rank first, and its glitch-freedom;
- `transaction.rs`: transactions, commits, sends and deferred firings;
- `consistency.rs`, `detached.rs`, `laws.rs`: the laws that span operations
  (the update rule of each combinator, a map cell follows its source, a hold
  takes what its stream fired, an unlistened listener hears nothing, a send
  is staged inside a transaction and visible after it);
- `cell.rs`, `cell_sink.rs`, `stream.rs`, `stream_sink.rs`, `operational.rs`,
  `listener.rs`: the user-facing combinators;
- `memo_lazy.rs`, `latch.rs`: lazily computed and resettable values.

Listeners do not call closures: what they are told is recorded as events,
which `SodiumCtx::take_events` hands out. `app/` holds what needs closures:
callbacks dispatched from those events, and an `IsLambda` made of closures.
