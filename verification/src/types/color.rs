//! Colors.

use vstd::prelude::*;

verus! {

/// A color by its red, green and blue parts.
#[derive(Copy, Clone, Debug, PartialEq, Eq, Structural)]
pub struct Color {
    pub red: u8,
    pub green: u8,
    pub blue: u8,
}

impl Color {
    pub fn from(red: u8, green: u8, blue: u8) -> (result: Self)
        ensures
            result == (Color { red: red, green: green, blue: blue }),
    {
        Self { red: red, green: green, blue: blue }
    }

    /// The grey of the given brightness.
    pub fn monochrome(brightness: u8) -> (result: Self)
        ensures
            result == (Color { red: brightness, green: brightness, blue: brightness }),
    {
        Self { red: brightness, green: brightness, blue: brightness }
    }
}

} // verus!
