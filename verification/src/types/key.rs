//! Keys.

use vstd::prelude::*;

verus! {

/// A key that the emulator reacts to.
#[derive(Copy, Clone, Debug, PartialEq, Eq, Structural)]
pub enum Key {
    T,
    Space,
}

impl Key {
    /// The key with the given key code: 32 is the space bar, 84 the letter T,
    /// and no other code is a key of the emulator.
    pub open spec fn of_code(code: usize) -> Option<Key> {
        if code == 32 {
            Some(Key::Space)
        } else if code == 84 {
            Some(Key::T)
        } else {
            None
        }
    }

    pub fn from_code(code: usize) -> (result: Option<Self>)
        ensures
            result == Self::of_code(code),
    {
        match code {
            32 => Some(Key::Space),
            84 => Some(Key::T),
            _ => None,
        }
    }
}

} // verus!
