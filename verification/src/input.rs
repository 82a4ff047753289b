//! The game's input events and the decoding of key presses into them.
//! Reading the keyboard happens outside the library, which only sees a
//! plain description of the key.

use vstd::prelude::*;

verus! {

use crate::types::Direction;

/// A key press, reduced to what the game distinguishes.
#[derive(Clone, Copy, Debug, PartialEq, Eq, Structural)]
pub enum Key {
    Esc,
    Up,
    Down,
    Left,
    Right,
    Char(char),
    Other,
}

/// One event the game loop consumes.
#[derive(Debug, PartialEq, Eq, Structural, Clone, Copy)]
pub enum Input {
    Pause,
    Exit,
    Step,
    ChangeDirection(Direction),
    IncreaseSpeed,
    DecreaseSpeed,
    Unknown,
}

/// Which input a key press stands for.
pub open spec fn input_for_key(k: Key) -> Input {
    match k {
        Key::Esc => Input::Exit,
        Key::Up => Input::ChangeDirection(Direction::North),
        Key::Down => Input::ChangeDirection(Direction::South),
        Key::Right => Input::ChangeDirection(Direction::East),
        Key::Left => Input::ChangeDirection(Direction::West),
        Key::Char(c) => if c == 'q' {
            Input::Exit
        } else if c == ' ' {
            Input::Pause
        } else if c == '+' {
            Input::IncreaseSpeed
        } else if c == '-' {
            Input::DecreaseSpeed
        } else {
            Input::Unknown
        },
        Key::Other => Input::Unknown,
    }
}

/// Decodes a key press into the corresponding input event.
pub fn decode_key(k: Key) -> (r: Input)
    ensures
        r == input_for_key(k),
{
    match k {
        Key::Esc => Input::Exit,
        Key::Up => Input::ChangeDirection(Direction::North),
        Key::Down => Input::ChangeDirection(Direction::South),
        Key::Right => Input::ChangeDirection(Direction::East),
        Key::Left => Input::ChangeDirection(Direction::West),
        Key::Char(c) => {
            if c == 'q' {
                Input::Exit
            } else if c == ' ' {
                Input::Pause
            } else if c == '+' {
                Input::IncreaseSpeed
            } else if c == '-' {
                Input::DecreaseSpeed
            } else {
                Input::Unknown
            }
        }
        Key::Other => Input::Unknown,
    }
}

} // verus!
