//! The cells that a cascade works on, as plain sequences.

use vstd::prelude::*;
use super::gate::Gate;
use super::input::Input;
use super::logic::LogicState;
use super::output::Slot;
use super::register::Register;

verus! {

/// The registers and gates of a network.
pub struct Nodes {
    pub registers: Seq<Register>,
    pub gates: Seq<Gate>,
}

impl Nodes {
    /// Whether `slot` exists.
    pub open spec fn has(self, slot: Slot) -> bool {
        slot.in_bounds(self.registers.len(), self.gates.len())
    }

    /// The cell at `slot`.
    pub open spec fn input(self, slot: Slot) -> Input
        recommends
            self.has(slot),
    {
        match slot {
            Slot::Register(index) => self.registers[index as int].input,
            Slot::Gate(index, right) => self.gates[index as int].input(right),
        }
    }

    /// Whether `slot` exists and has been driven in the current tick.
    pub open spec fn driven(self, slot: Slot) -> bool {
        self.has(slot) && self.input(slot).updated
    }

    /// The nodes with `state` delivered to the register at `index` in a tick
    /// of phase `rising`.
    pub open spec fn latch(self, index: usize, rising: bool, state: LogicState) -> Nodes
        recommends
            index < self.registers.len(),
    {
        Nodes {
            registers: self.registers.update(
                index as int,
                self.registers[index as int].latched(rising, state),
            ),
            ..self
        }
    }

    /// The nodes with `state` delivered to one input of gate `index`.
    pub open spec fn feed(self, index: usize, right: bool, state: LogicState) -> Nodes
        recommends
            index < self.gates.len(),
    {
        Nodes { gates: self.gates.update(index as int, self.gates[index as int].fed(right, state)), ..self }
    }

    /// The nodes after gate `index` has evaluated.
    pub open spec fn settle(self, index: usize) -> Nodes
        recommends
            index < self.gates.len(),
    {
        Nodes { gates: self.gates.update(index as int, self.gates[index as int].settled()), ..self }
    }

    /// What the cell at `slot` holds once `state` has been delivered to it in
    /// a tick of phase `rising`: a register applies the hazard rule, and the
    /// input of a gate takes the level as it is.
    pub open spec fn arriving(self, slot: Slot, rising: bool, state: LogicState) -> Input
        recommends
            self.has(slot),
    {
        match slot {
            Slot::Register(index) => Input::driven_with(
                Register::hazard(self.registers[index as int].rising, rising, state),
            ),
            Slot::Gate(_, _) => Input::driven_with(state),
        }
    }

    /// Whether these nodes may be what a cascade has made of `before`: no
    /// register has latched anything, every cell that had been driven holds
    /// what it held, and so does every cell that has not been driven yet; a
    /// gate that was not waiting is as it was, a gate that is still waiting
    /// shows its former result, and a gate that has stopped waiting shows
    /// what its operator makes of its inputs.
    pub open spec fn follows(self, before: Nodes) -> bool {
        &&& self.same_wiring(before)
        &&& forall|index: int|
            0 <= index < self.registers.len() ==> {
                &&& (#[trigger] self.registers[index]).state == before.registers[index].state
                &&& before.registers[index].input.updated || !self.registers[index].input.updated
                    ==> self.registers[index].input == before.registers[index].input
            }
        &&& forall|index: int|
            0 <= index < self.gates.len() ==> {
                &&& before.gates[index].left_input.updated || !(
                #[trigger] self.gates[index]).left_input.updated ==> self.gates[index].left_input
                    == before.gates[index].left_input
                &&& before.gates[index].right_input.updated || !self.gates[index].right_input.updated
                    ==> self.gates[index].right_input == before.gates[index].right_input
                &&& if before.gates[index].both_driven() {
                    self.gates[index] == before.gates[index]
                } else if self.gates[index].both_driven() {
                    self.gates[index].state == self.gates[index].evaluation()
                } else {
                    self.gates[index].state == before.gates[index].state
                }
            }
    }

    /// Whether every register that is active on the edge `rising` and has
    /// been driven since `before` holds a metastable level at its input.
    pub open spec fn hazards_since(self, before: Nodes, rising: bool) -> bool {
        forall|index: int|
            0 <= index < self.registers.len() && (#[trigger] self.registers[index]).input.updated
                && !before.registers[index].input.updated && self.registers[index].rising == rising
                ==> self.registers[index].input.state == LogicState::Metastable
    }

    /// Whether the wiring of every gate stays inside the network.
    pub open spec fn wired(self) -> bool {
        forall|index: int|
            0 <= index < self.gates.len() ==> (#[trigger] self.gates[index]).output.in_bounds(
                self.registers.len(),
                self.gates.len(),
            )
    }

    /// How many ends of the wiring of waiting gates arrive at `slot`.
    pub open spec fn backlog(self, slot: Slot) -> nat {
        backlog_of(self.gates, slot, self.gates.len())
    }

    /// How many deliveries `slot` has had in this tick or may still get from
    /// a gate: one if it has been driven, and one for each end of the wiring
    /// of a waiting gate.
    pub open spec fn potential(self, slot: Slot) -> nat {
        self.backlog(slot) + if self.driven(slot) {
            1nat
        } else {
            0nat
        }
    }

    /// How many gates are waiting.
    pub open spec fn pending(self) -> nat {
        pending_of(self.gates, self.gates.len())
    }

    /// Whether `other` has the same nodes wired the same way: only levels
    /// and driven flags may differ.
    pub open spec fn same_wiring(self, other: Nodes) -> bool {
        &&& self.registers.len() == other.registers.len()
        &&& self.gates.len() == other.gates.len()
        &&& forall|index: int|
            0 <= index < self.registers.len() ==> {
                &&& (#[trigger] self.registers[index]).output == other.registers[index].output
                &&& self.registers[index].rising == other.registers[index].rising
            }
        &&& forall|index: int|
            0 <= index < self.gates.len() ==> {
                &&& (#[trigger] self.gates[index]).output == other.gates[index].output
                &&& self.gates[index].operator == other.gates[index].operator
            }
    }
}

/// How many ends of the wiring of those among the first `count` gates that
/// are waiting arrive at `slot`.
pub open spec fn backlog_of(gates: Seq<Gate>, slot: Slot, count: nat) -> nat
    decreases count,
{
    if count == 0 {
        0
    } else {
        let index = count - 1;
        let rest = backlog_of(gates, slot, index as nat);
        if index < gates.len() && !gates[index].both_driven() {
            rest + gates[index].output.fanin(slot)
        } else {
            rest
        }
    }
}

/// How many of the first `count` gates are waiting.
pub open spec fn pending_of(gates: Seq<Gate>, count: nat) -> nat
    decreases count,
{
    if count == 0 {
        0
    } else {
        let index = count - 1;
        let rest = pending_of(gates, index as nat);
        if index < gates.len() && !gates[index].both_driven() {
            rest + 1
        } else {
            rest
        }
    }
}

} // verus!
