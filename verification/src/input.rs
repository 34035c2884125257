//! The normalized input that a terminal driver hands to the engine.

use crate::events::{
    KeyPress, KeyRelease, KeyRepeat, Message, MouseDown, MouseDrag, MouseHover, MouseScroll,
    MouseUp, Resize,
};
use vstd::prelude::*;

verus! {

#[derive(Debug, Clone, Copy, PartialEq, Eq, Structural)]
pub enum ModifierKeyCode {
    Shift,
    Ctrl,
    Alt,
    Super,
    Hyper,
    Meta,
    IsoLevel3Shift,
    IsoLevel5Shift,
}

#[derive(Debug, Clone, Copy, PartialEq, Eq, Structural)]
pub enum ModifierKeyDirection {
    Left,
    Right,
}

#[derive(Debug, Clone, Copy, PartialEq, Eq, Structural)]
pub enum MouseButton {
    Left,
    Right,
    Middle,
}

#[derive(Debug, Clone, Copy, PartialEq, Eq, Structural)]
pub enum MouseScrollDirection {
    Up,
    Down,
    Left,
    Right,
}

#[derive(Debug, Clone, Copy, PartialEq, Eq, Structural)]
pub enum MediaKeyCode {
    Play,
    Pause,
    PlayPause,
    Reverse,
    Stop,
    FastForward,
    Rewind,
    TrackNext,
    TrackPrevious,
    Record,
    LowerVolume,
    RaiseVolume,
    MuteVolume,
}

#[derive(Debug, Clone, Copy, PartialEq, Eq, Structural)]
pub enum KeyCode {
    Backspace,
    Enter,
    Left,
    Right,
    Up,
    Down,
    Home,
    End,
    PageUp,
    PageDown,
    Tab,
    Delete,
    Insert,
    F(u8),
    Char(char),
    Esc,
    CapsLock,
    ScrollLock,
    NumLock,
    PrintScreen,
    Pause,
    Menu,
    KeypadBegin,
    Media(MediaKeyCode),
    Modifier(ModifierKeyCode, ModifierKeyDirection),
}

/// One input of the terminal, freed of the terminal's own protocol.
#[derive(Debug, Clone, Copy, PartialEq, Eq, Structural)]
pub enum Input {
    MouseDown { x: u16, y: u16, button: MouseButton },
    MouseUp { x: u16, y: u16, button: MouseButton },
    MouseHover { x: u16, y: u16 },
    MouseDrag { x: u16, y: u16, button: MouseButton },
    MouseScroll { x: u16, y: u16, direction: MouseScrollDirection },
    KeyPress { key: KeyCode },
    KeyRepeat { key: KeyCode },
    KeyRelease { key: KeyCode },
    Resize { width: u16, height: u16 },
}

impl Input {
    /// The event that this input is dispatched as.
    pub open spec fn message(self) -> Message {
        match self {
            Input::MouseDown { x, y, button } => Message::MouseDown(MouseDown { x, y, button }),
            Input::MouseUp { x, y, button } => Message::MouseUp(MouseUp { x, y, button }),
            Input::MouseHover { x, y } => Message::MouseHover(MouseHover { x, y }),
            Input::MouseDrag { x, y, button } => Message::MouseDrag(MouseDrag { x, y, button }),
            Input::MouseScroll { x, y, direction } => Message::MouseScroll(
                MouseScroll { x, y, direction },
            ),
            Input::KeyPress { key } => Message::KeyPress(KeyPress { key }),
            Input::KeyRepeat { key } => Message::KeyRepeat(KeyRepeat { key }),
            Input::KeyRelease { key } => Message::KeyRelease(KeyRelease { key }),
            Input::Resize { width, height } => Message::Resize(Resize { width, height }),
        }
    }

    /// Wraps the input into the event that it is dispatched as.
    pub fn to_message(self) -> (m: Message)
        ensures
            m == self.message(),
    {
        match self {
            Input::MouseDown { x, y, button } => Message::MouseDown(MouseDown { x, y, button }),
            Input::MouseUp { x, y, button } => Message::MouseUp(MouseUp { x, y, button }),
            Input::MouseHover { x, y } => Message::MouseHover(MouseHover { x, y }),
            Input::MouseDrag { x, y, button } => Message::MouseDrag(MouseDrag { x, y, button }),
            Input::MouseScroll { x, y, direction } => Message::MouseScroll(
                MouseScroll { x, y, direction },
            ),
            Input::KeyPress { key } => Message::KeyPress(KeyPress { key }),
            Input::KeyRepeat { key } => Message::KeyRepeat(KeyRepeat { key }),
            Input::KeyRelease { key } => Message::KeyRelease(KeyRelease { key }),
            Input::Resize { width, height } => Message::Resize(Resize { width, height }),
        }
    }
}

} // verus!
