//! A stopwatch over the monotonic clock.

use std::time::{Duration, Instant};
use vstd::prelude::*;

verus! {

/// `std::time::Instant`: a moment of the monotonic clock, of which nothing
/// is known here.
#[verifier::external_type_specification]
#[verifier::external_body]
pub struct ExInstant(Instant);

/// `Instant::now`: the present moment of the monotonic clock.
#[verifier::external_body]
fn now() -> Instant {
    Instant::now()
}

/// `Instant::elapsed`: the time that has passed since the moment.
#[verifier::external_body]
fn elapsed_since(moment: &Instant) -> Duration {
    moment.elapsed()
}

/// `Duration::as_nanos`: the whole duration in nanoseconds.
#[verifier::external_body]
fn nanos_of(duration: &Duration) -> u128 {
    duration.as_nanos()
}

/// Whether a stopwatch runs.
#[derive(Clone, Copy, Debug, PartialEq, Eq, Structural)]
pub enum TimerState {
    Stopped,
    Started,
}

/// A stopwatch that adds up the time of its runs, in nanoseconds.
pub struct Timer {
    elapsed: u128,
    checkpoint: Instant,
    state: TimerState,
}

impl Timer {
    /// The time of the finished runs, in nanoseconds.
    pub closed spec fn elapsed(&self) -> u128 {
        self.elapsed
    }

    /// Whether the stopwatch runs.
    pub closed spec fn running(&self) -> bool {
        self.state == TimerState::Started
    }

    /// A running stopwatch without finished runs.
    pub fn new() -> (timer: Timer)
        ensures
            timer.running(),
            timer.elapsed() == 0,
    {
        Timer { elapsed: 0, checkpoint: now(), state: TimerState::Started }
    }

    /// Forgets the finished runs and starts anew.
    pub fn reset(&mut self)
        ensures
            final(self).running(),
            final(self).elapsed() == 0,
    {
        self.elapsed = 0;
        self.state = TimerState::Stopped;
        self.start();
    }

    /// Starts a stopped stopwatch.
    pub fn start(&mut self)
        requires
            !old(self).running(),
        ensures
            final(self).running(),
            final(self).elapsed() == old(self).elapsed(),
    {
        self.state = TimerState::Started;
        self.checkpoint = now();
    }

    /// Stops a running stopwatch and gives the time of all finished runs, in
    /// nanoseconds. The sum stays at the largest number where it would pass it.
    pub fn stop(&mut self) -> (total: u128)
        requires
            old(self).running(),
        ensures
            !final(self).running(),
            total == final(self).elapsed(),
            total >= old(self).elapsed(),
    {
        let run = elapsed_since(&self.checkpoint);
        self.elapsed = self.elapsed.saturating_add(nanos_of(&run));
        self.state = TimerState::Stopped;
        self.elapsed
    }
}

} // verus!
