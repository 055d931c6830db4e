# orderbook

A limit order book matching engine with price-time priority and self-trade
prevention, verified with Verus.

## Layout

- `src/types.rs`, `order.rs`, `ops.rs`, `events.rs`: domain types, commands and
  reported events.
- `src/pool.rs`: the slab of order slots with a free list and generations.
- `src/level.rs`: one price level, a FIFO queue linked through the pool.
- `src/ladder.rs`: one side of the book, a fixed ladder of levels around a
  reference price, with its best level cached.
- `src/model.rs`: the book as sequences and maps, and what `apply` does to it.
- `src/orderbook.rs`: the engine; `OrderBook::apply` is proved to do what
  `model::apply` says.
- `src/priority.rs`: price-time priority order of a side, and the proof that
  matching meets resting orders in that order.
- `src/laws.rs`: properties across operations (the book never crosses, fair
  trades, price-time priority, conservation of quantity, cancel undoing a
  resting place, ...).
- `src/rng.rs`, `generator.rs`, `sim.rs`: the deterministic SplitMix64
  generator, the synthetic order flow it drives (probabilities are integers
  over 2^53, deciding exactly as the floating-point comparison would), and
  the run configuration and statistics.
- `src/flow.rs`: the order flow over a run (same seed, same stream; order
  ids count the placements; cancels take only pending passive orders).
- `app/`: the simulation driver (CSV output) and the floating-point draws.
