//! The events that are dispatched to the nodes.
//!
//! An event either has no place on the screen (a tick, a key, a resize, a change of focus), or it
//! is a pointer event and carries the cell that the pointer is at.

use crate::arena::Arena;
use crate::input::{KeyCode, MouseButton, MouseScrollDirection};
use crate::node::NodeId;
use vstd::prelude::*;

verus! {

/// An event requesting an additional update cycle before the next draw.
#[derive(Debug, Clone, Copy, PartialEq, Eq, Structural)]
pub struct Tick;

/// A mouse button was pressed.
#[derive(Debug, Clone, Copy, PartialEq, Eq, Structural)]
pub struct MouseDown {
    pub x: u16,
    pub y: u16,
    pub button: MouseButton,
}

/// A mouse button was released.
#[derive(Debug, Clone, Copy, PartialEq, Eq, Structural)]
pub struct MouseUp {
    pub x: u16,
    pub y: u16,
    pub button: MouseButton,
}

/// The mouse cursor moved without a button held.
#[derive(Debug, Clone, Copy, PartialEq, Eq, Structural)]
pub struct MouseHover {
    pub x: u16,
    pub y: u16,
}

/// The mouse cursor moved with a button held.
#[derive(Debug, Clone, Copy, PartialEq, Eq, Structural)]
pub struct MouseDrag {
    pub x: u16,
    pub y: u16,
    pub button: MouseButton,
}

/// The mouse wheel was scrolled.
#[derive(Debug, Clone, Copy, PartialEq, Eq, Structural)]
pub struct MouseScroll {
    pub x: u16,
    pub y: u16,
    pub direction: MouseScrollDirection,
}

/// A keyboard button was pressed.
#[derive(Debug, Clone, Copy, PartialEq, Eq, Structural)]
pub struct KeyPress {
    pub key: KeyCode,
}

/// A keyboard button was repeated.
///
/// # Compatibility
///
/// This event is only emitted on terminal emulators which support the Kitty keyboard protocol.
#[derive(Debug, Clone, Copy, PartialEq, Eq, Structural)]
pub struct KeyRepeat {
    pub key: KeyCode,
}

/// A keyboard button was released.
///
/// # Compatibility
///
/// This event is only emitted on terminal emulators which support the Kitty keyboard protocol.
#[derive(Debug, Clone, Copy, PartialEq, Eq, Structural)]
pub struct KeyRelease {
    pub key: KeyCode,
}

/// The terminal emulator resized the buffer.
#[derive(Debug, Clone, Copy, PartialEq, Eq, Structural)]
pub struct Resize {
    pub width: u16,
    pub height: u16,
}

/// The focused component changed.
#[derive(Debug, Clone, Copy, PartialEq, Eq, Structural)]
pub struct FocusChanged {}

/// What every event is.
pub trait Event {
    /// The cell that the event points at, if it is a pointer event.
    fn pointer(&self) -> Option<(u16, u16)>;
}

/// An event of the pointer: it happens at a cell of the screen.
pub trait MouseEvent: Event {
    fn coords(&self) -> (u16, u16);
}

impl Event for Tick {
    fn pointer(&self) -> (r: Option<(u16, u16)>)
        ensures
            r is None,
    {
        None
    }
}

impl Event for KeyPress {
    fn pointer(&self) -> (r: Option<(u16, u16)>)
        ensures
            r is None,
    {
        None
    }
}

impl Event for KeyRepeat {
    fn pointer(&self) -> (r: Option<(u16, u16)>)
        ensures
            r is None,
    {
        None
    }
}

impl Event for KeyRelease {
    fn pointer(&self) -> (r: Option<(u16, u16)>)
        ensures
            r is None,
    {
        None
    }
}

impl Event for Resize {
    fn pointer(&self) -> (r: Option<(u16, u16)>)
        ensures
            r is None,
    {
        None
    }
}

impl Event for FocusChanged {
    fn pointer(&self) -> (r: Option<(u16, u16)>)
        ensures
            r is None,
    {
        None
    }
}

impl Event for MouseDown {
    fn pointer(&self) -> (r: Option<(u16, u16)>)
        ensures
            r == Some((self.x, self.y)),
    {
        Some((self.x, self.y))
    }
}

impl MouseEvent for MouseDown {
    fn coords(&self) -> (r: (u16, u16))
        ensures
            r == (self.x, self.y),
    {
        (self.x, self.y)
    }
}

impl Event for MouseUp {
    fn pointer(&self) -> (r: Option<(u16, u16)>)
        ensures
            r == Some((self.x, self.y)),
    {
        Some((self.x, self.y))
    }
}

impl MouseEvent for MouseUp {
    fn coords(&self) -> (r: (u16, u16))
        ensures
            r == (self.x, self.y),
    {
        (self.x, self.y)
    }
}

impl Event for MouseHover {
    fn pointer(&self) -> (r: Option<(u16, u16)>)
        ensures
            r == Some((self.x, self.y)),
    {
        Some((self.x, self.y))
    }
}

impl MouseEvent for MouseHover {
    fn coords(&self) -> (r: (u16, u16))
        ensures
            r == (self.x, self.y),
    {
        (self.x, self.y)
    }
}

impl Event for MouseDrag {
    fn pointer(&self) -> (r: Option<(u16, u16)>)
        ensures
            r == Some((self.x, self.y)),
    {
        Some((self.x, self.y))
    }
}

impl MouseEvent for MouseDrag {
    fn coords(&self) -> (r: (u16, u16))
        ensures
            r == (self.x, self.y),
    {
        (self.x, self.y)
    }
}

impl Event for MouseScroll {
    fn pointer(&self) -> (r: Option<(u16, u16)>)
        ensures
            r == Some((self.x, self.y)),
    {
        Some((self.x, self.y))
    }
}

impl MouseEvent for MouseScroll {
    fn coords(&self) -> (r: (u16, u16))
        ensures
            r == (self.x, self.y),
    {
        (self.x, self.y)
    }
}

/// An event on its way to the nodes.
#[derive(Debug, Clone, Copy, PartialEq, Eq, Structural)]
pub enum Message {
    Tick(Tick),
    MouseDown(MouseDown),
    MouseUp(MouseUp),
    MouseHover(MouseHover),
    MouseDrag(MouseDrag),
    MouseScroll(MouseScroll),
    KeyPress(KeyPress),
    KeyRepeat(KeyRepeat),
    KeyRelease(KeyRelease),
    Resize(Resize),
    FocusChanged(FocusChanged),
}

impl Message {
    /// The cell that the event points at, if it is a pointer event.
    pub open spec fn pointer(self) -> Option<(u16, u16)> {
        match self {
            Message::MouseDown(e) => Some((e.x, e.y)),
            Message::MouseUp(e) => Some((e.x, e.y)),
            Message::MouseHover(e) => Some((e.x, e.y)),
            Message::MouseDrag(e) => Some((e.x, e.y)),
            Message::MouseScroll(e) => Some((e.x, e.y)),
            _ => None,
        }
    }

    /// The cell that the event points at, if it is a pointer event.
    pub fn coords(&self) -> (r: Option<(u16, u16)>)
        ensures
            r == self.pointer(),
    {
        match self {
            Message::MouseDown(e) => Some((e.x, e.y)),
            Message::MouseUp(e) => Some((e.x, e.y)),
            Message::MouseHover(e) => Some((e.x, e.y)),
            Message::MouseDrag(e) => Some((e.x, e.y)),
            Message::MouseScroll(e) => Some((e.x, e.y)),
            _ => None,
        }
    }

    /// Resolves the node that the event is aimed at: for a pointer event the node that is drawn
    /// on top at the pointer's cell, for any other event none.
    pub fn target(&self, arena: &Arena) -> (target: Option<NodeId>)
        requires
            arena.wf(),
        ensures
            match self.pointer() {
                Some((x, y)) => arena.is_target(target, x, y),
                None => target is None,
            },
    {
        match self.coords() {
            Some((x, y)) => arena.hit_test(x, y),
            None => None,
        }
    }
}

} // verus!
