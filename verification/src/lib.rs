//! A keyed rate limiter with verified accounting.
//!
//! A limiter answers one question, "is this key allowed right now?", with a
//! [`Decision`]: allow, or deny together with how long to wait. Five algorithms
//! sit behind one limiter: the token bucket (its accounting comes from
//! `better-bucket`), the leaky bucket, the fixed window, the sliding-window log
//! and the sliding-window counter. Per-key state lives in a sharded store whose
//! memory is bounded by eviction.
//!
//! Every algorithm's decision is stated as a function of its state, the units
//! asked for and the elapsed time (the token bucket's over `better-bucket`'s
//! model of one "empty instant"), and its admission bound is proved over
//! arbitrary sequences of requests; for the token bucket, whose clock
//! `better-bucket` ties to the refill rate, that is at most a full bucket plus
//! what refilled, in tokens, up to two tokens of rounding. For every algorithm,
//! zero units are always admitted and take nothing, a refused request counts
//! none of its units, a request larger than it can ever grant is refused for
//! good, and a zero limit refuses everything. A refusal's wait is exact for the
//! leaky bucket, the fixed window and the sliding-window log, exact to the
//! millisecond for the token bucket, and for the sliding-window counter
//! whenever it is shorter than a period (a longer one is reported as one
//! period); no earlier retry of the same request succeeds. The store keeps keys
//! apart, bounds its memory by the eviction policy, and counts its keys; over
//! any run of checks, a key that is never evicted gets exactly the outcomes its
//! algorithm gives its own checks, so each admission bound holds per key.

mod time;
mod decision;
mod error;
mod algorithm;
mod quota;
mod key;
mod eviction;
pub mod store;
mod clock;
mod text;
mod limiter;
mod builder;
mod async_limiter;
pub mod history;
pub mod algo;

pub use crate::algorithm::Algorithm;
pub use crate::async_limiter::{next_step, AsyncLimiter, NextStep};
pub use crate::decision::{Decision, Outcome};
pub use crate::error::RateLimiterError;
pub use crate::builder::{builder_defaults, Builder, BuilderView};
pub use crate::clock::TimeSource;
pub use crate::limiter::{
    checked_now, lemma_limiter_memory_bounded, shard_count_for, Limiter, RateLimiter, RateLimiterView, DEFAULT_SHARDS,
};
pub use crate::eviction::{Eviction, EvictionView, DEFAULT_MAX_KEYS};
pub use crate::key::{be_bytes, Key, INLINE_CAP};
pub use crate::quota::{Quota, QuotaView};
pub use crate::time::{nanos_of, max_duration_nanos};
