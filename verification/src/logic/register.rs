//! Clocked registers.

use vstd::prelude::*;
use super::gate::Gate;
use super::input::Input;
use super::logic::LogicState;
use super::nodes::Nodes;
use super::output::Output;

verus! {

/// A register: its input, the level it has latched (the one other nodes
/// see), the wiring it drives, and the clock edge it is active on (`true`
/// for rising).
#[derive(Debug, PartialEq, Eq)]
pub struct Register {
    pub input: Input,
    pub state: LogicState,
    pub output: Output,
    pub rising: bool,
}

impl Register {
    /// The level that arrives at the input of a register with latching
    /// phase `own` when `state` is delivered to it in a tick of phase
    /// `rising`: on the register's own edge the delivery cannot be trusted
    /// and the input becomes metastable, on the other edge it passes.
    pub open spec fn hazard(own: bool, rising: bool, state: LogicState) -> LogicState {
        if rising == own {
            LogicState::Metastable
        } else {
            state
        }
    }

    /// The register with `state` delivered to it in a tick of phase `rising`.
    pub open spec fn latched(self, rising: bool, state: LogicState) -> Register {
        Register { input: Input::driven_with(Self::hazard(self.rising, rising, state)), ..self }
    }

    /// The register at the start of a tick: it has captured the level at its
    /// input, and the input counts as not driven.
    pub open spec fn captured(self) -> Register {
        Register { state: self.input.state, input: self.input.cleared(), ..self }
    }

    pub fn new(input: Input, output: Output, rising: bool) -> (result: Self)
        ensures
            result == (Register { input: input, state: input.state, output: output, rising: rising }),
    {
        Self { input: input, state: input.state, output: output, rising: rising }
    }

    /// The nodes after this register has had its turn in a tick of phase
    /// `rising`: on its own edge it drives the level it has latched into
    /// its wiring, and on the other edge it does nothing.
    pub open spec fn drive(self, nodes: Nodes, rising: bool) -> Nodes {
        if self.rising == rising {
            self.output.deliver(nodes, rising, self.state)
        } else {
            nodes
        }
    }

    /// Drives the latched level into the register's wiring if the tick is of
    /// the register's own phase.
    pub fn update(&self, registers: &mut Vec<Register>, gates: &mut Vec<Gate>, rising: bool)
        requires
            self.rising == rising ==> self.output.ready(
                (Nodes { registers: old(registers)@, gates: old(gates)@ }),
            ),
        ensures
            (Nodes { registers: final(registers)@, gates: final(gates)@ }) == self.drive(
                (Nodes { registers: old(registers)@, gates: old(gates)@ }),
                rising,
            ),
    {
        if self.rising == rising {
            self.output.update(registers, gates, rising, self.state);
        }
    }

    pub fn reset(&mut self)
        ensures
            *final(self) == old(self).captured(),
    {
        self.state = self.input.state;
        self.input.reset();
    }
}

impl Clone for Register {
    fn clone(&self) -> (result: Self)
        ensures
            result == *self,
    {
        Register {
            input: self.input,
            state: self.state,
            output: self.output.clone(),
            rising: self.rising,
        }
    }
}

} // verus!
