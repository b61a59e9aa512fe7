//! Fixed sources.

use vstd::prelude::*;
use super::gate::Gate;
use super::logic::LogicState;
use super::nodes::Nodes;
use super::output::Output;
use super::register::Register;

verus! {

/// A source that drives the same level into its wiring in every tick.
#[derive(Debug, PartialEq, Eq)]
pub struct Constant {
    pub output: Output,
    pub state: LogicState,
}

impl Constant {
    pub fn new(state: LogicState, output: Output) -> (result: Self)
        ensures
            result == (Constant { output: output, state: state }),
    {
        Self { state: state, output: output }
    }

    /// Drives the fixed level into the constant's wiring.
    pub fn update(&self, registers: &mut Vec<Register>, gates: &mut Vec<Gate>, rising: bool)
        requires
            self.output.ready((Nodes { registers: old(registers)@, gates: old(gates)@ })),
        ensures
            (Nodes { registers: final(registers)@, gates: final(gates)@ }) == self.output.deliver(
                (Nodes { registers: old(registers)@, gates: old(gates)@ }),
                rising,
                self.state,
            ),
    {
        self.output.update(registers, gates, rising, self.state);
    }
}

impl Clone for Constant {
    fn clone(&self) -> (result: Self)
        ensures
            result == *self,
    {
        Constant { output: self.output.clone(), state: self.state }
    }
}

} // verus!
