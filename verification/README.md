# rate-net

A keyed rate limiter whose accounting is proved with Verus.

`RateLimiter::per_second(100)` then `limiter.check(key)` answers "is this key
allowed right now?" with a `Decision`: allow, or deny with how long to wait.
Five algorithms sit behind the one limiter: the token bucket (its accounting
comes from `better-bucket`), the leaky bucket (GCRA), the fixed window, the
sliding-window log and the sliding-window counter. Per-key state lives in a
sharded store whose memory is bounded by LRU/TTL eviction. Time comes from
`clock-lib`: the operating system's monotonic clock, or a `ManualClock` in
tests.

## Layout

- `src/` — the verified library.
  - `algo/` — each algorithm's state, its step as a spec function, and its
    admission bound over arbitrary request sequences; `token.rs` holds the
    trusted wrappers around `better-bucket`.
  - `store.rs` — the sharded store, eviction, and the laws on key
    independence, bounded memory, key counting and LRU.
  - `history.rs` — runs of checks: a key that is never evicted sees exactly
    its algorithm's outcomes over its own checks, so the admission bounds hold
    per key.
  - `limiter.rs`, `builder.rs`, `async_limiter.rs` — the public surface.
  - `time.rs`, `clock.rs` — durations as nanosecond counts and the clock
    wrappers.
  - `text.rs` — numbers and names as text, for a limiter's description,
    which never shows a key.
- `tests/` — the test suite, run against the compiled library.
- `app/` — what needs the machine or a runtime: sizing the store by core
  count, sharing a limiter between threads, keying by IP address, awaiting
  admission with tokio, and the error type's `Display`/`Error`/`ForgeError`.
