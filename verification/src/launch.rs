//! How a run of an application is set up.

use vstd::prelude::*;

verus! {

/// The span of time of the given number of milliseconds.
pub uninterp spec fn millis(ms: u64) -> std::time::Duration;

/// `std::time::Duration::from_millis`: the span of time of the given number of milliseconds.
#[verifier::external_body]
fn duration_from_millis(ms: u64) -> (d: std::time::Duration)
    ensures
        d == millis(ms),
{
    std::time::Duration::from_millis(ms)
}

/// The time that one frame may take where nothing else is asked for, in milliseconds.
pub const FRAME_MILLIS: u64 = 16;

/// Collects the settings of a run before it is launched.
pub struct LaunchBuilder {
    frametime: std::time::Duration,
}

impl LaunchBuilder {
    /// The time within which the events of one frame are taken off the queue.
    pub closed spec fn budget(&self) -> std::time::Duration {
        self.frametime
    }

    /// The settings of a run with a frame of [`FRAME_MILLIS`] milliseconds.
    pub fn new() -> (b: Self)
        ensures
            b.budget() == millis(FRAME_MILLIS),
    {
        LaunchBuilder { frametime: duration_from_millis(FRAME_MILLIS) }
    }

    /// Sets the time that one frame may take.
    pub fn frametime(self, budget: std::time::Duration) -> (b: Self)
        ensures
            b.budget() == budget,
    {
        LaunchBuilder { frametime: budget }
    }

    /// The time that one frame may take.
    pub fn frame_budget(&self) -> (d: std::time::Duration)
        ensures
            d == self.budget(),
    {
        self.frametime
    }
}

impl Default for LaunchBuilder {
    fn default() -> (b: Self)
        ensures
            b.budget() == millis(FRAME_MILLIS),
    {
        LaunchBuilder::new()
    }
}

/// The settings of a run that is paced by frames per second.
#[derive(Clone, Copy, Debug, PartialEq, Eq)]
pub struct LaunchConfig {
    pub fps: Option<usize>,
}

impl Default for LaunchConfig {
    fn default() -> (c: Self)
        ensures
            c.fps == Some(60usize),
    {
        Self { fps: Some(60) }
    }
}

/// A handle identifying the current execution scope within the runtime.
#[derive(Clone, Copy, Debug, PartialEq, Eq, Structural)]
pub struct Scope;

/// A context container given to all component update listeners.
///
/// It provides access to the triggering event and its associated [`Scope`].
pub struct UpdateContext<'a, E> {
    pub event: &'a E,
    pub scope: &'a Scope,
}

/// The sending side of a channel by which a component hears from a task of its own; it stands
/// for the type of the values that are sent.
pub struct ChannelSender<T> {
    _marker: std::marker::PhantomData<T>,
}

impl<T> ChannelSender<T> {
    pub fn new() -> (s: Self) {
        Self { _marker: std::marker::PhantomData }
    }
}

} // verus!
