//! Rendering numbers and names as text, for a limiter's description.

use vstd::prelude::*;
use vstd::string::StringExecFns;

use crate::algorithm::Algorithm;

verus! {

/// The character of the decimal digit `d`.
pub open spec fn digit_char(d: int) -> char {
    (48 + d) as char
}

/// The decimal digits of `x`, most significant first, without leading zeros
/// ("0" for zero).
pub open spec fn decimal(x: nat) -> Seq<char>
    decreases x,
{
    if x < 10 {
        seq![digit_char(x as int)]
    } else {
        decimal(x / 10) + seq![digit_char((x % 10) as int)]
    }
}

fn digit_str(d: u64) -> (r: &'static str)
    requires
        d < 10,
    ensures
        r@ == seq![digit_char(d as int)],
{
    proof {
        reveal_strlit("0");
        reveal_strlit("1");
        reveal_strlit("2");
        reveal_strlit("3");
        reveal_strlit("4");
        reveal_strlit("5");
        reveal_strlit("6");
        reveal_strlit("7");
        reveal_strlit("8");
        reveal_strlit("9");
    }
    let r: &'static str = match d {
        0 => "0",
        1 => "1",
        2 => "2",
        3 => "3",
        4 => "4",
        5 => "5",
        6 => "6",
        7 => "7",
        8 => "8",
        _ => "9",
    };
    assert(r@ =~= seq![digit_char(d as int)]);
    r
}

/// `x` in decimal.
pub fn decimal_string(x: u64) -> (r: String)
    ensures
        r@ == decimal(x as nat),
    decreases x,
{
    if x < 10 {
        String::from_str(digit_str(x))
    } else {
        let mut s: String = decimal_string(x / 10);
        s.append(digit_str(x % 10));
        s
    }
}

/// The name of an algorithm, as its variant is written.
pub open spec fn algorithm_name(a: Algorithm) -> Seq<char> {
    match a {
        Algorithm::TokenBucket => "TokenBucket"@,
        Algorithm::LeakyBucket => "LeakyBucket"@,
        Algorithm::FixedWindow => "FixedWindow"@,
        Algorithm::SlidingWindowLog => "SlidingWindowLog"@,
        Algorithm::SlidingWindowCounter => "SlidingWindowCounter"@,
    }
}

/// The name of `a`.
pub fn algorithm_str(a: Algorithm) -> (r: &'static str)
    ensures
        r@ == algorithm_name(a),
{
    match a {
        Algorithm::TokenBucket => "TokenBucket",
        Algorithm::LeakyBucket => "LeakyBucket",
        Algorithm::FixedWindow => "FixedWindow",
        Algorithm::SlidingWindowLog => "SlidingWindowLog",
        Algorithm::SlidingWindowCounter => "SlidingWindowCounter",
    }
}

} // verus!
