//! The decision core of the polling wait engine.
//!
//! A wait loop repeatedly takes a sample, evaluates a predicate on it,
//! and then either returns the sample, gives up with a timeout record,
//! or sleeps briefly and retries. Sampling, sleeping and clocks belong
//! to the transport layer; the decision taken at each iteration is pure
//! and lives here.

use vstd::prelude::*;

verus! {

/// What a poll iteration must do next.
#[derive(Debug, Clone, Copy, PartialEq, Eq, Structural)]
pub enum PollOutcome {
    /// The predicate held: return the fresh sample at once, without any
    /// further sleep.
    Satisfied,
    /// The time budget is exhausted: give up with a timeout record
    /// carrying this sample.
    TimedOut,
    /// Sleep the poll interval and sample again.
    Poll,
}

/// The decision of one poll iteration: a satisfied predicate wins
/// immediately; otherwise the elapsed time must strictly exceed the
/// budget before the wait gives up.
pub open spec fn spec_poll_decision(
    predicate_holds: bool,
    elapsed_ms: u64,
    timeout_ms: u64,
) -> PollOutcome {
    if predicate_holds {
        PollOutcome::Satisfied
    } else if elapsed_ms > timeout_ms {
        PollOutcome::TimedOut
    } else {
        PollOutcome::Poll
    }
}

/// Decides what a poll iteration does next, from the predicate's value
/// on the fresh sample and the elapsed wall-clock time.
pub fn poll_decision(predicate_holds: bool, elapsed_ms: u64, timeout_ms: u64) -> (r: PollOutcome)
    ensures
        r == spec_poll_decision(predicate_holds, elapsed_ms, timeout_ms),
{
    if predicate_holds {
        PollOutcome::Satisfied
    } else if elapsed_ms > timeout_ms {
        PollOutcome::TimedOut
    } else {
        PollOutcome::Poll
    }
}

/// The diagnostic record of an exhausted wait: how long the loop ran,
/// what it was allowed, and the last sample it saw.
#[derive(Debug, Clone)]
pub struct WaitTimeout {
    /// Wall-clock time the loop had run when it gave up, in milliseconds.
    pub elapsed_ms: u64,
    /// The configured budget, in milliseconds.
    pub timeout_ms: u64,
    /// The last raw capture observed.
    pub last_raw: String,
    /// The last cleaned capture, where the wait watched a cleaned form.
    pub last_clean: Option<String>,
}

impl WaitTimeout {
    /// Records an exhausted wait. Constructed only once the elapsed time
    /// strictly exceeds the budget, as the poll decision demands.
    pub fn new(
        elapsed_ms: u64,
        timeout_ms: u64,
        last_raw: String,
        last_clean: Option<String>,
    ) -> (r: Self)
        requires
            elapsed_ms > timeout_ms,
        ensures
            r.elapsed_ms == elapsed_ms,
            r.timeout_ms == timeout_ms,
            r.last_raw == last_raw,
            r.last_clean == last_clean,
            r.elapsed_ms >= r.timeout_ms,
    {
        Self { elapsed_ms, timeout_ms, last_raw, last_clean }
    }
}

/// A predicate already true of the first sample ends the wait at once:
/// whatever the clock says, the decision is `Satisfied`, so no sleep and
/// no further sampling happens.
pub proof fn lemma_first_sample_satisfied(elapsed_ms: u64, timeout_ms: u64)
    ensures
        spec_poll_decision(true, elapsed_ms, timeout_ms) == PollOutcome::Satisfied,
{
}

/// A wait only gives up once the elapsed time is at least the configured
/// budget (strictly above it, in fact): every `WaitTimeout` a poll loop
/// constructs carries `elapsed_ms >= timeout_ms`.
pub proof fn lemma_timeout_elapsed_bound(predicate_holds: bool, elapsed_ms: u64, timeout_ms: u64)
    ensures
        spec_poll_decision(predicate_holds, elapsed_ms, timeout_ms) == PollOutcome::TimedOut
            ==> elapsed_ms >= timeout_ms,
{
}

} // verus!
