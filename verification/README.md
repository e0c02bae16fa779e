# exchange

A limit order book matching engine whose core is verified with Verus.

## Layout

- `src/` — the verified library.
  - `types.rs`, `order.rs`, `events.rs` — prices, quantities, orders, commands and the
    events a book reports.
  - `book.rs` — the book: levels per side (best level last), each a FIFO queue of orders,
    and the stop orders in trigger order; its mathematical view and well-formedness.
  - `index.rs` — the book's identifier index (an `FxHashMap` from order identifier to the
    side and price where the order is held), kept in step with the book.
  - `price_level.rs` — a FIFO level with its running totals.
  - `model.rs` — the specification of matching: price-time priority, limits, fill-or-kill,
    stop triggering, cancel and replace, as spec functions over the view.
  - `matcher.rs` — `apply`, proved to compute exactly what `model.rs` specifies.
  - `lemmas.rs`, `laws.rs`, `ids.rs` — the proofs: the book stays well formed (never
    crossed, level totals equal to the orders they hold), quantity is conserved, limits
    are respected, time priority holds, fill-or-kill is all or nothing, no identifier is
    held twice, a cancelled order never trades again, replay of a prefix of the commands
    gives a prefix of the events.
  - `wal.rs`, `le.rs`, `writer.rs` — the log's record format (framing, CRC, decoding,
    scanning a segment, reading segments in turn) and the writer's bookkeeping.
  - `segment.rs` — segment file names: the name of an index, the index of a name, which
    names are segments and their order.
  - `snapshot.rs` — snapshots of a book and the book they restore, with the round trip
    proved, and the check that a stored snapshot rebuilds a well-formed book.
  - `protocol.rs`, `json.rs`, `router.rs` — the binary wire format, the engine side of the
    JSON requests, client-facing names.
  - `engine.rs`, `sequencer.rs`, `feed.rs`, `latency.rs`, `loadgen.rs` — shard routing,
    the books of a shard, sequence numbers, the market-data view and its messages.
- `app/` — the program around it: threads and channels, files, TCP and WebSocket
  servers, JSON with serde, metrics, and the load generator.
- `tests/` — tests of the library.
