//! Plain values shared with the presentation layer.

pub mod color;
pub mod key;

pub use self::color::Color;
pub use self::key::Key;
