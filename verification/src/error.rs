//! Construction-time configuration errors.
//!
//! The check path never fails; only describing a limit can. A quota built from
//! values that cannot describe a working limiter is rejected up front.

use vstd::prelude::*;

verus! {

/// A limit configuration rejected at construction time.
///
/// Returned by [`Quota::rate`](crate::Quota::rate) when the supplied values
/// cannot describe a working rate limit; each variant names the violated
/// constraint.
#[non_exhaustive]
#[derive(Debug, Clone, Copy, PartialEq, Eq, Structural)]
pub enum RateLimiterError {
    /// The quota limit was zero: a limit that admits nothing per period.
    ZeroQuota,
    /// The quota period was zero: a rate per zero-length period is undefined.
    ZeroPeriod,
}

impl RateLimiterError {
    /// The variant's name, as an error kind.
    pub fn kind(&self) -> (r: &'static str)
        ensures
            *self is ZeroQuota ==> r@ == "ZeroQuota"@,
            *self is ZeroPeriod ==> r@ == "ZeroPeriod"@,
    {
        match self {
            RateLimiterError::ZeroQuota => "ZeroQuota",
            RateLimiterError::ZeroPeriod => "ZeroPeriod",
        }
    }

    /// A short caption shared by every configuration error.
    pub fn caption(&self) -> (r: &'static str)
        ensures
            r@ == "Invalid rate-limit configuration"@,
    {
        "Invalid rate-limit configuration"
    }

    /// The human-readable message naming the violated constraint.
    pub fn message(&self) -> (r: &'static str)
        ensures
            *self is ZeroQuota ==> r@ == "quota limit must be greater than zero"@,
            *self is ZeroPeriod ==> r@ == "quota period must be greater than zero"@,
    {
        match self {
            RateLimiterError::ZeroQuota => "quota limit must be greater than zero",
            RateLimiterError::ZeroPeriod => "quota period must be greater than zero",
        }
    }

    /// The message as an owned string.
    pub fn to_string(&self) -> (r: String)
        ensures
            *self is ZeroQuota ==> r@ == "quota limit must be greater than zero"@,
            *self is ZeroPeriod ==> r@ == "quota period must be greater than zero"@,
    {
        self.message().to_owned()
    }

    /// Whether retrying could help: never, since a bad configuration does not
    /// fix itself.
    pub fn is_retryable(&self) -> (r: bool)
        ensures
            !r,
    {
        false
    }
}

} // verus!
