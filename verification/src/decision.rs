//! The outcome of a rate-limit check.

use core::time::Duration;
use vstd::prelude::*;

use crate::time::nanos_of;

verus! {

/// The result of checking a key against its limit.
///
/// A check never fails: it either admits the request (and counts it) or
/// refuses it, carrying the wait until the same request would be admitted if
/// nothing else is meanwhile. A wait of `Duration::MAX` means the request can
/// never succeed.
#[must_use]
#[non_exhaustive]
#[derive(Debug, Clone, Copy, PartialEq, Eq)]
pub enum Decision {
    /// The request is within the limit and has been counted against the key.
    Allow,
    /// The request would exceed the key's limit and was refused.
    Deny {
        /// The wait until the same request would be admitted: the least
        /// such wait for the leaky bucket, the fixed window and the sliding
        /// log; the least whole number of milliseconds for the token bucket;
        /// and for the sliding counter the least one when it is shorter than a
        /// period, else one period, before which no retry fits.
        retry_after: Duration,
    },
}

/// A decision as mathematics: allow, or deny with the wait in nanoseconds.
pub enum Outcome {
    /// Admitted.
    Allow,
    /// Refused; the wait in nanoseconds.
    Deny(int),
}

impl View for Decision {
    type V = Outcome;

    open spec fn view(&self) -> Outcome {
        match self {
            Decision::Allow => Outcome::Allow,
            Decision::Deny { retry_after } => Outcome::Deny(nanos_of(*retry_after) as int),
        }
    }
}

impl Decision {
    /// Returns `true` if the request was admitted.
    #[must_use]
    pub fn is_allow(&self) -> (r: bool)
        ensures
            r <==> *self is Allow,
    {
        match self {
            Decision::Allow => true,
            Decision::Deny { .. } => false,
        }
    }

    /// Returns `true` if the request was refused.
    #[must_use]
    pub fn is_deny(&self) -> (r: bool)
        ensures
            r <==> !(*self is Allow),
            r == !self.is_allow_spec(),
    {
        !self.is_allow()
    }

    /// Whether the decision admits the request.
    pub open spec fn is_allow_spec(&self) -> bool {
        *self is Allow
    }

    /// Returns the wait until the request would be admitted, or `None` if it
    /// was allowed.
    #[must_use]
    pub fn retry_after(&self) -> (r: Option<Duration>)
        ensures
            match *self {
                Decision::Allow => r is None,
                Decision::Deny { retry_after } => r == Some(retry_after),
            },
    {
        match self {
            Decision::Deny { retry_after } => Some(*retry_after),
            Decision::Allow => None,
        }
    }
}

} // verus!
