use vstd::prelude::*;

verus! {

/// A key press, reduced to what the selectors decide on. The terminal
/// front end translates its own event type into this one.
#[derive(Clone, Copy, Debug, PartialEq, Eq, Structural)]
pub enum Key {
    Up,
    Down,
    Left,
    Right,
    Enter,
    Backspace,
    Esc,
    Char(char),
    Other,
}

} // verus!
