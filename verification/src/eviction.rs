//! How the per-key store bounds its memory.

use core::time::Duration;
use vstd::prelude::*;

verus! {

/// The key-capacity cap a limiter uses unless told otherwise.
pub const DEFAULT_MAX_KEYS: usize = 100_000;

/// An eviction policy as mathematics.
pub struct EvictionView {
    /// The most keys the store keeps, or `None` for no cap.
    pub max_keys: Option<usize>,
    /// How long a key may go unchecked before it is reclaimed, or `None` to
    /// never expire on idle.
    pub idle_ttl: Option<Duration>,
}

/// The policy that bounds the per-key store.
///
/// A capacity cap evicts the least-recently-seen key of a shard that is full
/// when a new key arrives; an idle TTL reclaims keys that have not been
/// checked for that long. Both act lazily, while a new key is inserted, and
/// only on the shard receiving it. The default is a cap of
/// [`DEFAULT_MAX_KEYS`] with no TTL.
#[derive(Debug, Clone, Copy, PartialEq, Eq)]
pub struct Eviction {
    max_keys: Option<usize>,
    idle_ttl: Option<Duration>,
}

impl View for Eviction {
    type V = EvictionView;

    closed spec fn view(&self) -> EvictionView {
        EvictionView { max_keys: self.max_keys, idle_ttl: self.idle_ttl }
    }
}

impl Eviction {
    /// The default policy: a cap of [`DEFAULT_MAX_KEYS`], no idle TTL.
    pub open spec fn default_view() -> EvictionView {
        EvictionView { max_keys: Some(DEFAULT_MAX_KEYS), idle_ttl: None }
    }

    /// A cap of `max_keys` live keys, with no idle TTL.
    #[must_use]
    pub fn capacity(max_keys: usize) -> (r: Self)
        ensures
            r@.max_keys == Some(max_keys),
            r@.idle_ttl is None,
    {
        Eviction { max_keys: Some(max_keys), idle_ttl: None }
    }

    /// An idle TTL of `ttl`, with no key-capacity cap.
    #[must_use]
    pub fn idle(ttl: Duration) -> (r: Self)
        ensures
            r@.max_keys is None,
            r@.idle_ttl == Some(ttl),
    {
        Eviction { max_keys: None, idle_ttl: Some(ttl) }
    }

    /// No cap and no TTL: every key is kept.
    #[must_use]
    pub fn unbounded() -> (r: Self)
        ensures
            r@.max_keys is None,
            r@.idle_ttl is None,
    {
        Eviction { max_keys: None, idle_ttl: None }
    }

    /// This policy with an idle TTL of `ttl` added; the cap is kept.
    #[must_use]
    pub fn with_idle(self, ttl: Duration) -> (r: Self)
        ensures
            r@.max_keys == self@.max_keys,
            r@.idle_ttl == Some(ttl),
    {
        Eviction { max_keys: self.max_keys, idle_ttl: Some(ttl) }
    }

    /// The key-capacity cap, if any.
    #[must_use]
    pub fn max_keys(&self) -> (r: Option<usize>)
        ensures
            r == self@.max_keys,
    {
        self.max_keys
    }

    /// The idle TTL, if any.
    #[must_use]
    pub fn idle_ttl(&self) -> (r: Option<Duration>)
        ensures
            r == self@.idle_ttl,
    {
        self.idle_ttl
    }
}

impl Default for Eviction {
    fn default() -> (r: Self)
        ensures
            r@ == Eviction::default_view(),
    {
        Eviction { max_keys: Some(DEFAULT_MAX_KEYS), idle_ttl: None }
    }
}

} // verus!
