//! Two-input boolean operators.

use vstd::prelude::*;

verus! {

/// A two-input boolean function that a gate computes.
#[derive(Copy, Clone, Debug, PartialEq, Eq, Structural)]
pub enum Operator {
    And,
    Or,
    Xor,
}

impl Operator {
    /// The operator applied to two booleans.
    pub open spec fn apply(self, left: bool, right: bool) -> bool {
        match self {
            Operator::And => left && right,
            Operator::Or => left || right,
            Operator::Xor => left != right,
        }
    }
}

} // verus!
