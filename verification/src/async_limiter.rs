//! A limiter meant to be awaited on, and the decision an await loop takes.
//!
//! Waiting needs a runtime, which the library does not hold: an await loop
//! checks, asks [`next_step`] what the decision calls for, sleeps as long as
//! it says, and checks again.

use core::time::Duration;
use clock_lib::SystemClock;
use vstd::prelude::*;

use crate::clock::TimeSource;
use crate::decision::{Decision, Outcome};
use crate::key::Key;
use crate::limiter::{checked_now, RateLimiter};
use crate::time::{duration_as_nanos, max_duration_nanos, nanos_of};

verus! {

/// What an await-until-ready loop does after a check.
pub enum NextStep {
    /// The request was admitted: stop.
    Done,
    /// The request can never be admitted: stop rather than wait forever.
    GiveUp,
    /// Wait this long, then check again.
    Sleep(Duration),
}

/// What an await-until-ready loop does after decision `d`: stop when it
/// admits, give up when its wait is `Duration::MAX` (no amount of waiting
/// would help), and otherwise sleep for its wait.
pub fn next_step(d: Decision) -> (s: NextStep)
    ensures
        match d@ {
            Outcome::Allow => s is Done,
            Outcome::Deny(wait) => if wait == max_duration_nanos() {
                s is GiveUp
            } else {
                s matches NextStep::Sleep(t) && nanos_of(t) == wait
            },
        },
{
    match d {
        Decision::Allow => NextStep::Done,
        Decision::Deny { retry_after } => {
            if duration_as_nanos(retry_after) == 18_446_744_073_709_551_615_999_999_999u128 {
                NextStep::GiveUp
            } else {
                NextStep::Sleep(retry_after)
            }
        },
    }
}

/// A [`RateLimiter`] meant to be awaited on: the checks pass straight
/// through, and an await loop built on [`next_step`] waits until a key is
/// admitted.
pub struct AsyncLimiter<C: TimeSource = SystemClock> {
    inner: RateLimiter<C>,
}

impl<C: TimeSource> AsyncLimiter<C> {
    /// The wrapped limiter.
    pub closed spec fn limiter(&self) -> RateLimiter<C> {
        self.inner
    }

    /// Wraps a limiter.
    #[must_use]
    pub fn new(inner: RateLimiter<C>) -> (r: Self)
        ensures
            r.limiter() == inner,
    {
        AsyncLimiter { inner }
    }

    /// Borrows the wrapped limiter.
    #[must_use]
    pub fn inner(&self) -> (r: &RateLimiter<C>)
        ensures
            *r == self.limiter(),
    {
        &self.inner
    }

    /// Unwraps back into the limiter.
    #[must_use]
    pub fn into_inner(self) -> (r: RateLimiter<C>)
        ensures
            r == self.limiter(),
    {
        self.inner
    }

    /// Checks a single unit against `key` without waiting: the wrapped
    /// limiter's `check`.
    pub fn check<K: Into<Key>>(&mut self, key: K) -> (d: Decision)
        requires
            old(self).limiter().wf(),
        ensures
            exists|k: Key| #[trigger] call_ensures(K::into, (key,), k) && checked_now(
                old(self).limiter(),
                final(self).limiter(),
                k,
                1,
                d@,
            ),
    {
        self.inner.check(key)
    }

    /// Checks `n` units against `key` without waiting: the wrapped limiter's
    /// `check_n`.
    pub fn check_n<K: Into<Key>>(&mut self, key: K, n: u32) -> (d: Decision)
        requires
            old(self).limiter().wf(),
        ensures
            exists|k: Key| #[trigger] call_ensures(K::into, (key,), k) && checked_now(
                old(self).limiter(),
                final(self).limiter(),
                k,
                n as int,
                d@,
            ),
    {
        self.inner.check_n(key, n)
    }
}

impl<C: TimeSource> From<RateLimiter<C>> for AsyncLimiter<C> {
    fn from(inner: RateLimiter<C>) -> (r: Self)
        ensures
            r.limiter() == inner,
    {
        AsyncLimiter::new(inner)
    }
}

impl<C: TimeSource> vstd::std_specs::convert::FromSpecImpl<RateLimiter<C>> for AsyncLimiter<C> {
    open spec fn obeys_from_spec() -> bool {
        true
    }

    closed spec fn from_spec(v: RateLimiter<C>) -> AsyncLimiter<C> {
        AsyncLimiter { inner: v }
    }
}

} // verus!
