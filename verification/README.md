# pulsur

The verified core of an HTTP infrastructure toolkit: fundamental data
structures, an HTTP/1.x and WebSocket codec with routing, sliding-window
rate limiting, a circuit breaker, a load-balancing backend pool, a durable
job queue with its write-ahead log, reverse-proxy routing and caching
rules, and the API gateway's plugins.

- `src/` is the library, written in Verus; its functions carry contracts
  (the trusted wrappers around outside calls state what their crates'
  sources show, and nothing where the result is the clock's or chance's),
  and the laws that span several functions are proof functions
  (for example `queue::snapshot_round_trip`, `queue::replay_reproduces_run`,
  `wal::replay_ignores_truncated_tail`,
  `ws::frame_round_trip`, `circuit_breaker::rolling_window_keeps_last_n`).
- `tests/` exercises the library as an ordinary Rust crate.
- `app/` holds what is not verified: sockets, files, clocks, threads,
  serialisation formats and floating-point token buckets, around the
  library's decisions.
