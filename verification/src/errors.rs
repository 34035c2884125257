//! The errors that the engine reports.

use vstd::prelude::*;

verus! {

/// An error that ends the run of an application.
#[derive(Debug, Clone, PartialEq, Eq)]
pub enum RuntimeError {
    /// The terminal could not be read or written; the text says what failed.
    Io(String),
}

impl RuntimeError {
    /// What failed, in words.
    pub fn message(&self) -> (text: &String)
        ensures
            self matches RuntimeError::Io(t) && *text == t,
    {
        match self {
            RuntimeError::Io(text) => text,
        }
    }
}

/// An error returned from [`MessageSender::send`](crate::transport::MessageSender::send).
///
/// A send operation can only fail if the receiving end of a channel is disconnected.
#[derive(Debug, Clone, Copy, PartialEq, Eq, Structural)]
pub struct SendError;

/// An error returned when attempting to access state that is freed.
///
/// This is only possible through a self-referential anti-pattern, where state holds a handle to
/// state.
#[derive(Debug, Clone, Copy, PartialEq, Eq, Structural)]
pub struct StateError;

} // verus!
