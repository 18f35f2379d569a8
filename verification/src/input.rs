//! Key input handed to the games by the terminal front end.
use vstd::prelude::*;

verus! {

/// Which key was pressed.
#[derive(Clone, Copy, PartialEq, Eq, Debug, Structural)]
pub enum Key {
    Left,
    Right,
    Up,
    Down,
    Enter,
    Backspace,
    Char(char),
    Other,
}

/// Whether the key went down, repeated while held, or was released.
#[derive(Clone, Copy, PartialEq, Eq, Debug, Structural)]
pub enum KeyKind {
    Press,
    Repeat,
    Release,
}

/// A key event.
#[derive(Clone, Copy, PartialEq, Eq, Debug, Structural)]
pub struct KeyInput {
    pub key: Key,
    pub kind: KeyKind,
}

impl KeyInput {
    /// A key press.
    pub fn press(key: Key) -> (k: KeyInput)
        ensures
            k.key == key,
            k.kind == KeyKind::Press,
    {
        KeyInput { key, kind: KeyKind::Press }
    }
}

/// Enter and Space both start a new round once a game is over.
pub open spec fn is_restart_key(k: Key) -> bool {
    k == Key::Enter || k == Key::Char(' ')
}

pub fn restart_key(k: Key) -> (b: bool)
    ensures
        b == is_restart_key(k),
{
    match k {
        Key::Enter => true,
        Key::Char(c) => c == ' ',
        _ => false,
    }
}

} // verus!
