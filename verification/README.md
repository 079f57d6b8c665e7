# market_aggregator

A verified core for aggregating order books across venues: exact decimals, books
with an explicit claim of trust, depth audits, consolidation across venues,
rolling windows, stream assignment under leases, a Parquet archive of events, and
the state machines around connections, channels, tapes and snapshots.

- `src/` is the library. What a function returns or changes is stated in its
  contract, which Verus proves; only of a jitter seeded by the operating system
  nothing can be said. Laws that relate several functions are the public proof
  functions named `law_..`: `cluster.rs` holds that no two nodes hold one stream,
  `archive.rs` that what was archived is read back.
  What is believed without proof is confined to the boundary with outside crates:
  `decimal.rs` (`rust_decimal`), `columnar.rs` (`arrow`, `parquet`), and a few
  functions of std in `backoff.rs`, `text.rs` and `tape.rs`.
- `tests/` runs the library, outside crates included.
- `app/` is the runtime: sockets, files, buckets, clocks and tasks. It performs
  what the library decides and decides nothing itself.
