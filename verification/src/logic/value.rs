//! The value of a group of signal lines read as one number.

use vstd::prelude::*;

verus! {

/// What a group of bits amounts to: a number when every bit is binary,
/// else the kind of the bit that spoils it.
#[derive(Copy, Clone, Debug, PartialEq, Eq, Structural)]
pub enum ValueState {
    Stable(u64),
    Metastable,
    Floating,
}

} // verus!
