# candlestore

A trading kernel in Rust, verified with Verus: candles arrive through a ring in shared
memory, are kept in a store of fixed-size rings with the least recently used symbol
evicted to Parquet files, and drive a moving-average strategy whose signals go through a
second ring to an executor. An order book with price-time priority, a paper trading
engine and a portfolio stand beside it.

- `src/` is the verified library. Numbers are binary64 numbers as bit patterns
  (`binary64`), with arithmetic proved to be correctly rounded.
- `app/` makes the system calls, runs the threads and speaks to the network:
  `candlestore feed_handler`, `candlestore market_hub` and
  `candlestore binance SYMBOL INTERVAL`, and the C interface.
- `tests/` runs the library.

| Module | Contents |
|---|---|
| `candle`, `ring_buffer`, `store` | candles, their rings, and the store with its eviction |
| `cold` | Parquet files of evicted symbols |
| `shm` | single-producer single-consumer rings, their layout, set-up and protocol |
| `signal`, `strategy`, `simulator`, `feed` | signals, the strategy, a simulated feed and the exchange's messages |
| `matching` | orders, the order book, paper trading, the portfolio, and their laws |
| `hw`, `affinity`, `settings`, `metrics`, `ffi`, `shutdown` | sizing by the hardware, cores, settings, metrics, the C interface and the end of threads |
