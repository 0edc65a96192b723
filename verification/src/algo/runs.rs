//! Runs of an algorithm over a sequence of requests.
//!
//! For every algorithm but the token bucket (whose accounting belongs to
//! `better-bucket`), the outcomes a fresh state gives a sequence of requests,
//! each `(units, nanoseconds)`, and the units those outcomes admit in a span of
//! instants. Each algorithm's count of admitted units is shown to be the units
//! these outcomes admit, so that its admission bound carries over to anything
//! shown to produce them.

use vstd::prelude::*;

use crate::algo::AlgoState;
use crate::algo::fixed_window::{
    fixed_window_admitted, fixed_window_initial, fixed_window_run, fixed_window_step, window_length,
};
use crate::algo::leaky::{leaky_initial, leaky_run, leaky_step, leaky_trailing};
use crate::algo::sliding_counter::{
    sliding_counter_admitted, sliding_counter_initial, sliding_counter_run, sliding_counter_step,
    sliding_counter_trailing,
};
use crate::algo::sliding_log::{
    sliding_log_admitted, sliding_log_initial, sliding_log_run, sliding_log_step, still_counts,
};
use crate::algorithm::Algorithm;
use crate::decision::Outcome;
use crate::quota::QuotaView;

verus! {

/// The outcome `algorithm` gives a request of `n` units at `t` nanoseconds,
/// after the requests `ks`, starting from fresh state created at `start`. The
/// token bucket's outcomes are not modelled.
pub open spec fn step_outcome(algorithm: Algorithm, q: QuotaView, start: int, ks: Seq<(u32, u64)>, n: int, t: int) -> Outcome {
    match algorithm {
        Algorithm::FixedWindow => fixed_window_step(fixed_window_run(fixed_window_initial(q, start), ks), n, t).1,
        Algorithm::LeakyBucket => leaky_step(leaky_run(leaky_initial(q, start), ks), n, t).1,
        Algorithm::SlidingWindowLog => sliding_log_step(sliding_log_run(sliding_log_initial(q), ks), n, t).1,
        Algorithm::SlidingWindowCounter => sliding_counter_step(
            sliding_counter_run(sliding_counter_initial(q, start), ks),
            n,
            t,
        ).1,
        Algorithm::TokenBucket => arbitrary(),
    }
}

/// The outcomes `algorithm` gives the requests `ks`, one each, starting from
/// fresh state created at `start`.
pub open spec fn run_outcomes(algorithm: Algorithm, q: QuotaView, start: int, ks: Seq<(u32, u64)>) -> Seq<Outcome>
    decreases ks.len(),
{
    if ks.len() == 0 {
        Seq::empty()
    } else {
        let pre = ks.drop_last();
        run_outcomes(algorithm, q, start, pre).push(
            step_outcome(algorithm, q, start, pre, ks.last().0 as int, ks.last().1 as int),
        )
    }
}

/// The units admitted among the requests `ks`, whose outcomes are `outs`, at
/// instants `t` for which `counts(t)` holds.
pub open spec fn units_allowed(ks: Seq<(u32, u64)>, outs: Seq<Outcome>, counts: spec_fn(int) -> bool) -> int
    decreases ks.len(),
{
    if ks.len() == 0 || outs.len() == 0 {
        0
    } else {
        let counted = if outs.last() is Allow && counts(ks.last().1 as int) {
            ks.last().0 as int
        } else {
            0
        };
        units_allowed(ks.drop_last(), outs.drop_last(), counts) + counted
    }
}

impl AlgoState {
    /// Whether the state is the one `algorithm` reaches from fresh state
    /// created at `start`, after the requests `ks`.
    pub open spec fn ran(&self, algorithm: Algorithm, q: QuotaView, start: int, ks: Seq<(u32, u64)>) -> bool {
        match algorithm {
            Algorithm::FixedWindow => self matches AlgoState::FixedWindow(s) && s@ == fixed_window_run(
                fixed_window_initial(q, start),
                ks,
            ),
            Algorithm::LeakyBucket => self matches AlgoState::LeakyBucket(s) && s@ == leaky_run(
                leaky_initial(q, start),
                ks,
            ),
            Algorithm::SlidingWindowLog => self matches AlgoState::SlidingLog(s) && s@ == sliding_log_run(
                sliding_log_initial(q),
                ks,
            ),
            Algorithm::SlidingWindowCounter => self matches AlgoState::SlidingCounter(s) && s@
                == sliding_counter_run(sliding_counter_initial(q, start), ks),
            Algorithm::TokenBucket => self is TokenBucket,
        }
    }
}

/// Fresh state has run no request.
pub proof fn lemma_fresh_ran(s: AlgoState, algorithm: Algorithm, q: QuotaView, now: int)
    requires
        s.fresh(algorithm, q, now),
    ensures
        s.ran(algorithm, q, now, Seq::empty()),
{
}

/// A request takes a state that has run `ks` to the state that has run `ks`
/// and the request, with the outcome of the run.
pub proof fn lemma_step_ran(
    s: AlgoState,
    algorithm: Algorithm,
    q: QuotaView,
    start: int,
    ks: Seq<(u32, u64)>,
    n: u32,
    t: u64,
    next: AlgoState,
    out: Outcome,
)
    requires
        algorithm != Algorithm::TokenBucket,
        s.ran(algorithm, q, start, ks),
        s.step(n as int, t as int, next, out),
    ensures
        next.ran(algorithm, q, start, ks.push((n, t))),
        out == step_outcome(algorithm, q, start, ks, n as int, t as int),
{
    let ks2 = ks.push((n, t));
    assert(ks2.drop_last() =~= ks);
    assert(ks2.last() == (n, t));
}

/// The outcomes of a run extend one request at a time.
pub proof fn lemma_run_outcomes_push(
    algorithm: Algorithm,
    q: QuotaView,
    start: int,
    ks: Seq<(u32, u64)>,
    n: u32,
    t: u64,
)
    ensures
        run_outcomes(algorithm, q, start, ks.push((n, t))) == run_outcomes(algorithm, q, start, ks).push(
            step_outcome(algorithm, q, start, ks, n as int, t as int),
        ),
        run_outcomes(algorithm, q, start, ks).len() == ks.len(),
    decreases ks.len(),
{
    let ks2 = ks.push((n, t));
    assert(ks2.drop_last() =~= ks);
    lemma_run_outcomes_len(algorithm, q, start, ks);
}

proof fn lemma_run_outcomes_len(algorithm: Algorithm, q: QuotaView, start: int, ks: Seq<(u32, u64)>)
    ensures
        run_outcomes(algorithm, q, start, ks).len() == ks.len(),
    decreases ks.len(),
{
    if ks.len() > 0 {
        lemma_run_outcomes_len(algorithm, q, start, ks.drop_last());
    }
}

/// The fixed window's admitted units in aligned window `w` are the units its
/// run's outcomes admit at instants in that window.
pub proof fn lemma_fixed_window_units(q: QuotaView, start: int, ks: Seq<(u32, u64)>, w: int)
    ensures
        fixed_window_admitted(fixed_window_initial(q, start), ks, w) == units_allowed(
            ks,
            run_outcomes(Algorithm::FixedWindow, q, start, ks),
            |t: int| t / window_length(q) == w,
        ),
    decreases ks.len(),
{
    lemma_run_outcomes_len(Algorithm::FixedWindow, q, start, ks);
    if ks.len() > 0 {
        let pre = ks.drop_last();
        lemma_fixed_window_units(q, start, ks.drop_last(), w);
        let outs = run_outcomes(Algorithm::FixedWindow, q, start, ks);
        assert(outs.drop_last() =~= run_outcomes(Algorithm::FixedWindow, q, start, pre));
        assert(outs.last() == step_outcome(Algorithm::FixedWindow, q, start, pre, ks.last().0 as int, ks.last().1 as int));
    }
}

/// The sliding log's units still counting at `at` are the units its run's
/// outcomes admit at instants no later than `at` and less than a period
/// before it.
pub proof fn lemma_sliding_log_units(q: QuotaView, start: int, ks: Seq<(u32, u64)>, at: int)
    ensures
        sliding_log_admitted(sliding_log_initial(q), ks, at) == units_allowed(
            ks,
            run_outcomes(Algorithm::SlidingWindowLog, q, start, ks),
            |t: int| t <= at && still_counts(t, window_length(q), at),
        ),
    decreases ks.len(),
{
    lemma_run_outcomes_len(Algorithm::SlidingWindowLog, q, start, ks);
    if ks.len() > 0 {
        let pre = ks.drop_last();
        lemma_sliding_log_units(q, start, ks.drop_last(), at);
        let outs = run_outcomes(Algorithm::SlidingWindowLog, q, start, ks);
        assert(outs.drop_last() =~= run_outcomes(Algorithm::SlidingWindowLog, q, start, pre));
        assert(outs.last() == step_outcome(Algorithm::SlidingWindowLog, q, start, pre, ks.last().0 as int, ks.last().1 as int));
    }
}

/// The sliding counter's admitted units, in aligned window `w` and in the
/// trailing period ending at `at`, are the units its run's outcomes admit
/// there.
pub proof fn lemma_sliding_counter_units(q: QuotaView, start: int, ks: Seq<(u32, u64)>, w: int, at: int)
    ensures
        sliding_counter_admitted(sliding_counter_initial(q, start), ks, w) == units_allowed(
            ks,
            run_outcomes(Algorithm::SlidingWindowCounter, q, start, ks),
            |t: int| t / window_length(q) == w,
        ),
        sliding_counter_trailing(sliding_counter_initial(q, start), ks, at) == units_allowed(
            ks,
            run_outcomes(Algorithm::SlidingWindowCounter, q, start, ks),
            |t: int| at - window_length(q) < t <= at,
        ),
    decreases ks.len(),
{
    lemma_run_outcomes_len(Algorithm::SlidingWindowCounter, q, start, ks);
    if ks.len() > 0 {
        let pre = ks.drop_last();
        lemma_sliding_counter_units(q, start, ks.drop_last(), w, at);
        let outs = run_outcomes(Algorithm::SlidingWindowCounter, q, start, ks);
        assert(outs.drop_last() =~= run_outcomes(Algorithm::SlidingWindowCounter, q, start, pre));
        assert(outs.last() == step_outcome(Algorithm::SlidingWindowCounter, q, start, pre, ks.last().0 as int, ks.last().1 as int));
    }
}

/// The leaky bucket's admitted units in the trailing window of `width`
/// nanoseconds ending at `at` are the units its run's outcomes admit there.
pub proof fn lemma_leaky_units(q: QuotaView, start: int, ks: Seq<(u32, u64)>, at: int, width: int)
    ensures
        leaky_trailing(leaky_initial(q, start), ks, at, width) == units_allowed(
            ks,
            run_outcomes(Algorithm::LeakyBucket, q, start, ks),
            |t: int| at - width < t <= at,
        ),
    decreases ks.len(),
{
    lemma_run_outcomes_len(Algorithm::LeakyBucket, q, start, ks);
    if ks.len() > 0 {
        let pre = ks.drop_last();
        lemma_leaky_units(q, start, ks.drop_last(), at, width);
        let outs = run_outcomes(Algorithm::LeakyBucket, q, start, ks);
        assert(outs.drop_last() =~= run_outcomes(Algorithm::LeakyBucket, q, start, pre));
        assert(outs.last() == step_outcome(Algorithm::LeakyBucket, q, start, pre, ks.last().0 as int, ks.last().1 as int));
    }
}

} // verus!
