# engine_core

A limit order book and matching engine with price-time priority, verified
with Verus.

* `src/` is the verified library. `book_model.rs` gives the book its
  mathematical picture (per side, a map from price to the queue of orders
  resting there) and proves that the book's invariant survives each kind
  of change; `matching.rs` states what matching does on that picture;
  `orderbook.rs`, `price_level.rs` and `matching_engine.rs` hold the
  executable book and engine, whose contracts are stated over it;
  `risk.rs` holds the pre-trade limits, `depth.rs` the depth snapshot and
  `simulation.rs` the integer part of the random order-flow generator.
  `laws.rs` proves properties that relate the operations.
* `tests/` exercises the library.
* `app/` is the WebAssembly front end: JavaScript bindings, JSON copies of
  the library's types, and the floating-point part of the generator.
