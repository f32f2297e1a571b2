# Eterna

A limit order book with price-time priority, verified with Verus, and the services
around it.

- `src/matching.rs` says what price-time priority means, on sequences of orders.
- `src/half_book.rs` and `src/orderbook.rs` are the book: B-trees of price levels, each a
  queue, proved to behave as those sequences do.
- `src/laws.rs` proves what holds whatever is submitted: quantity is conserved, the book is
  never crossed, fills respect limits and priority, and snapshots add up.
- `src/engine.rs` serves commands one at a time; `src/session.rs` and `src/http.rs` decide
  what the network tasks do; `src/demo.rs` holds the texts that the demo client shows.
- `src/stress.rs` and `src/bench.rs` hold the load that the stress and benchmark runs submit,
  and the audit that every run provably passes.
- What is taken on trust is one call, `lay_out` in `src/demo.rs`, which has `serde_json` lay
  out a text.
- `app/` is the program: `eterna engine|api|bench|stress|demo`.
