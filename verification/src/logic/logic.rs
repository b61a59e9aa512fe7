//! The four-valued signal.

use vstd::prelude::*;
use super::operator::Operator;

verus! {

/// The level of one signal line: one of the two binary levels, undriven
/// (floating), or undecided because of a timing violation (metastable).
#[derive(Copy, Clone, Debug, PartialEq, Eq, Structural)]
pub enum LogicState {
    High,
    Low,
    Floating,
    Metastable,
}

impl LogicState {
    /// Whether the state is one of the two binary levels.
    pub open spec fn is_binary(self) -> bool {
        self == LogicState::High || self == LogicState::Low
    }

    /// The level that stands for a boolean.
    pub open spec fn of_bool(state: bool) -> LogicState {
        if state {
            LogicState::High
        } else {
            LogicState::Low
        }
    }

    /// The boolean that a binary level stands for.
    pub open spec fn as_bool(self) -> bool
        recommends
            self.is_binary(),
    {
        self == LogicState::High
    }

    /// The result of a gate with the given operator on two input levels.
    ///
    /// A floating operand makes the result floating, whatever the other
    /// operand is. Otherwise a metastable operand makes it metastable.
    /// Otherwise both operands are binary and the operator decides.
    pub open spec fn combine(self, operant: LogicState, operator: Operator) -> LogicState {
        if self == LogicState::Floating || operant == LogicState::Floating {
            LogicState::Floating
        } else if self == LogicState::Metastable || operant == LogicState::Metastable {
            LogicState::Metastable
        } else {
            Self::of_bool(operator.apply(self.as_bool(), operant.as_bool()))
        }
    }

    pub fn from_boolean(state: bool) -> (result: Self)
        ensures
            result == Self::of_bool(state),
    {
        match state {
            true => LogicState::High,
            false => LogicState::Low,
        }
    }

    /// Only a binary level has a boolean: the other two are left out.
    pub fn to_boolean(&self) -> (result: bool)
        requires
            self.is_binary(),
        ensures
            result == self.as_bool(),
            *self == Self::of_bool(result),
    {
        match self {
            LogicState::High => true,
            _ => false,
        }
    }

    pub fn is_floating(&self) -> (result: bool)
        ensures
            result == (*self == LogicState::Floating),
    {
        match self {
            LogicState::Floating => true,
            _ => false,
        }
    }

    pub fn is_metastable(&self) -> (result: bool)
        ensures
            result == (*self == LogicState::Metastable),
    {
        match self {
            LogicState::Metastable => true,
            _ => false,
        }
    }

    pub fn operator(&self, operant: Self, operator: Operator) -> (result: Self)
        ensures
            result == self.combine(operant, operator),
    {
        if self.is_floating() || operant.is_floating() {
            return LogicState::Floating;
        }
        if self.is_metastable() || operant.is_metastable() {
            return LogicState::Metastable;
        }
        let left = self.to_boolean();
        let right = operant.to_boolean();
        match operator {
            Operator::And => LogicState::from_boolean(left && right),
            Operator::Or => LogicState::from_boolean(left || right),
            Operator::Xor => LogicState::from_boolean(left != right),
        }
    }
}

} // verus!
