use std::time::{Duration, Instant};
use vstd::prelude::*;

verus! {

#[verifier::external_type_specification]
#[verifier::external_body]
pub struct ExInstant(Instant);

/// Relies on `Instant::now`: the current instant, which depends on the clock, so nothing is
/// promised of it.
#[verifier::external_body]
fn now() -> (r: Instant) {
    Instant::now()
}

/// Relies on `Instant::checked_add`: the instant `d` after `start`, or `None` where the clock
/// cannot represent it. Nothing is promised of the instant itself.
#[verifier::external_body]
fn checked_later(start: Instant, d: Duration) -> (r: Option<Instant>) {
    start.checked_add(d)
}

/// Relies on `Instant`'s `<`: whether `a` comes before `b`. Instants are opaque here, so
/// nothing is promised of the answer.
#[verifier::external_body]
fn is_earlier(a: Instant, b: Instant) -> (r: bool) {
    a < b
}

/// The stopping condition of a search.
#[derive(Clone, Copy)]
pub enum TerminationKind {
    /// Stop once this many iterations have been completed.
    Iterations(u64),
    /// Stop once the clock has passed this instant.
    Timeout(Instant),
    /// Only the exhaustion of the iteration counter stops the search.
    Never,
}

/// A stopping policy together with the count of iterations completed so far.
///
/// The counter is a `u64`: once it has reached `u64::MAX` no further iteration
/// can be counted, and every policy reports termination.
#[derive(Clone, Copy)]
pub struct Termination {
    pub kind: TerminationKind,
    pub iterations: u64,
}

impl Termination {
    /// What `should_terminate` answers, where the answer does not depend on the clock.
    pub open spec fn terminated(&self) -> bool {
        match self.kind {
            TerminationKind::Iterations(n) => self.iterations >= n,
            TerminationKind::Timeout(_) => self.iterations == u64::MAX,
            TerminationKind::Never => self.iterations == u64::MAX,
        }
    }

    /// The number of further iterations this policy allows, where it does not depend on the
    /// clock.
    pub open spec fn budget(&self) -> int {
        match self.kind {
            TerminationKind::Iterations(n) => if self.iterations < n {
                n - self.iterations
            } else {
                0
            },
            _ => u64::MAX - self.iterations,
        }
    }

    pub fn after_iterations(n: usize) -> (r: Self)
        ensures
            r.kind == TerminationKind::Iterations(n as u64),
            r.iterations == 0,
    {
        Termination { kind: TerminationKind::Iterations(n as u64), iterations: 0 }
    }

    /// Stops once `d` has passed from now. A deadline beyond what the clock can represent is
    /// never reached.
    pub fn after_duration(d: Duration) -> (r: Self)
        ensures
            r.kind is Timeout || r.kind is Never,
            r.iterations == 0,
    {
        match checked_later(now(), d) {
            Some(deadline) => Termination { kind: TerminationKind::Timeout(deadline), iterations: 0 },
            None => Termination { kind: TerminationKind::Never, iterations: 0 },
        }
    }

    pub fn never() -> (r: Self)
        ensures
            r.kind == TerminationKind::Never,
            r.iterations == 0,
    {
        Termination { kind: TerminationKind::Never, iterations: 0 }
    }

    /// Whether the search must stop before starting another iteration. Under a deadline the
    /// answer also depends on the clock; a counter at `u64::MAX` always stops.
    pub fn should_terminate(&self) -> (r: bool)
        ensures
            !(self.kind is Timeout) ==> r == self.terminated(),
            self.iterations == u64::MAX ==> r,
    {
        if self.iterations == u64::MAX {
            return true;
        }
        match self.kind {
            TerminationKind::Iterations(n) => self.iterations >= n,
            TerminationKind::Timeout(deadline) => is_earlier(deadline, now()),
            TerminationKind::Never => false,
        }
    }

    /// Records one completed iteration.
    pub fn iteration(&mut self)
        requires
            old(self).iterations < u64::MAX,
        ensures
            final(self).kind == old(self).kind,
            final(self).iterations == old(self).iterations + 1,
    {
        self.iterations = self.iterations + 1;
    }
}

} // verus!
