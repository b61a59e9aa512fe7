//! Combinational gates.

use vstd::prelude::*;
use super::input::Input;
use super::logic::LogicState;
use super::operator::Operator;
use super::output::Output;

verus! {

/// A gate: an operator, its two inputs, the result of its last evaluation
/// and the wiring that the result is driven into.
#[derive(Debug, PartialEq, Eq)]
pub struct Gate {
    pub operator: Operator,
    pub left_input: Input,
    pub right_input: Input,
    pub state: LogicState,
    pub output: Output,
}

impl Gate {
    /// Whether both inputs have been driven in the current tick. A gate of
    /// which this does not hold is waiting.
    pub open spec fn both_driven(self) -> bool {
        self.left_input.updated && self.right_input.updated
    }

    /// The input on the named side.
    pub open spec fn input(self, right: bool) -> Input {
        if right {
            self.right_input
        } else {
            self.left_input
        }
    }

    /// What the operator makes of the two levels that the inputs hold.
    pub open spec fn evaluation(self) -> LogicState {
        self.left_input.state.combine(self.right_input.state, self.operator)
    }

    /// This gate with `state` delivered to the input on the named side.
    pub open spec fn fed(self, right: bool, state: LogicState) -> Gate {
        if right {
            Gate { right_input: Input::driven_with(state), ..self }
        } else {
            Gate { left_input: Input::driven_with(state), ..self }
        }
    }

    /// This gate after it has evaluated.
    pub open spec fn settled(self) -> Gate {
        Gate { state: self.evaluation(), ..self }
    }

    /// This gate at the start of a tick: neither input counts as driven, and
    /// levels and result are kept.
    pub open spec fn cleared(self) -> Gate {
        Gate {
            left_input: self.left_input.cleared(),
            right_input: self.right_input.cleared(),
            ..self
        }
    }

    pub fn new(operator: Operator, output: Output) -> (result: Self)
        ensures
            result == (Gate {
                operator: operator,
                left_input: Input { state: LogicState::Floating, updated: false },
                right_input: Input { state: LogicState::Floating, updated: false },
                state: LogicState::Floating,
                output: output,
            }),
    {
        Self {
            operator: operator,
            left_input: Input::new(LogicState::Floating),
            right_input: Input::new(LogicState::Floating),
            state: LogicState::Floating,
            output: output,
        }
    }

    pub fn reset(&mut self)
        ensures
            *final(self) == old(self).cleared(),
    {
        self.left_input.reset();
        self.right_input.reset();
    }
}

impl Clone for Gate {
    fn clone(&self) -> (result: Self)
        ensures
            result == *self,
    {
        Gate {
            operator: self.operator,
            left_input: self.left_input,
            right_input: self.right_input,
            state: self.state,
            output: self.output.clone(),
        }
    }
}

} // verus!
