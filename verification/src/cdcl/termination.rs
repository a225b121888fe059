//! When the solver should give up.
use std::time::{Duration, Instant};
use vstd::prelude::*;

verus! {

#[verifier::external_type_specification]
#[verifier::external_body]
pub struct ExInstant(Instant);

/// Whether the first instant lies after the second.
pub uninterp spec fn instant_later(a: Instant, b: Instant) -> bool;

/// Calls `Instant::now`: the current time, of which nothing is known here.
#[verifier::external_body]
fn now() -> (instant: Instant) {
    Instant::now()
}

/// What `Instant::checked_add` gives for a start and a duration.
pub uninterp spec fn instant_plus(start: Instant, duration: Duration) -> Option<Instant>;

/// Calls `Instant::checked_add`: the instant the duration after the start, or `None` when that
/// instant cannot be represented. Its result is named, as a function of the start and the
/// duration; nothing is stated of which instant it is.
#[verifier::external_body]
fn instant_checked_add(start: Instant, duration: Duration) -> (end: Option<Instant>)
    ensures
        end == instant_plus(start, duration),
{
    start.checked_add(duration)
}

/// Compares two instants with `>`; the result depends on the two instants alone.
#[verifier::external_body]
fn is_later(a: &Instant, b: &Instant) -> (later: bool)
    ensures
        later == instant_later(*a, *b),
{
    *a > *b
}

/// A terminator indicates when the solver should stop.
pub trait Terminator {
    /// Indicates whether the solver should stop or may continue.
    fn should_stop(&self) -> bool;
}

/// A time budget can be used to stop the solver after some duration.
pub struct TimeBudget {
    end_time: Option<Instant>,
}

impl TimeBudget {
    /// The moment the budget runs out, if it ever does.
    pub closed spec fn end_time_spec(&self) -> Option<Instant> {
        self.end_time
    }

    /// Create a time budget that starts now and gives the solver `duration` time to find a
    /// solution. A budget whose end lies beyond what an `Instant` can represent never runs out.
    pub fn starting_now(duration: Duration) -> (budget: TimeBudget)
        ensures
            exists|start: Instant| budget.end_time_spec() == instant_plus(start, duration),
    {
        let end_time = instant_checked_add(now(), duration);
        TimeBudget { end_time }
    }

    /// Create an infinite time budget. The solver will not terminate before it finds a solution or
    /// concludes unsat.
    pub fn infinite() -> (budget: TimeBudget)
        ensures
            budget.end_time_spec() is None,
    {
        TimeBudget { end_time: None }
    }

    /// Whether the end of the budget has passed, judged at the given moment: never for an
    /// infinite budget.
    pub fn has_passed_at(&self, moment: &Instant) -> (passed: bool)
        ensures
            passed == match self.end_time_spec() {
                None => false,
                Some(end) => instant_later(*moment, end),
            },
    {
        match &self.end_time {
            None => false,
            Some(end) => is_later(moment, end),
        }
    }
}

impl Terminator for TimeBudget {
    fn should_stop(&self) -> (stop: bool)
        ensures
            self.end_time_spec() is None ==> !stop,
            self.end_time_spec() matches Some(end) ==> exists|moment: Instant| stop == instant_later(moment, end),
    {
        let moment = now();
        self.has_passed_at(&moment)
    }
}

/// A terminator that never stops the solver.
pub struct Indefinite;

impl Terminator for Indefinite {
    fn should_stop(&self) -> (stop: bool)
        ensures
            !stop,
    {
        false
    }
}

} // verus!
