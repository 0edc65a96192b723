//! The rate-limiting algorithm a limiter applies.

use vstd::prelude::*;

verus! {

/// Selects the algorithm a limiter uses to decide a request.
///
/// Every algorithm shares the same limiter surface, so the strategy can change
/// without touching call sites. The token bucket is the default.
#[non_exhaustive]
#[derive(Debug, Clone, Copy, PartialEq, Eq, Hash, Structural)]
pub enum Algorithm {
    /// Smooth refill with burst headroom up to the configured capacity; its
    /// accounting is delegated to `better-bucket`.
    TokenBucket,
    /// Constant-drain shaping (GCRA) that spaces admitted units evenly.
    LeakyBucket,
    /// A counter that resets each aligned window.
    FixedWindow,
    /// Exact request timestamps within the trailing window.
    SlidingWindowLog,
    /// A weighted blend of the current and the previous window.
    SlidingWindowCounter,
}

impl Default for Algorithm {
    fn default() -> (r: Self)
        ensures
            r is TokenBucket,
    {
        Algorithm::TokenBucket
    }
}

} // verus!
