//! The mathematical model of a network and of one tick.

use vstd::prelude::*;
use crate::logic::constant::Constant;
use crate::logic::gate::Gate;
use crate::logic::input::Input;
use crate::logic::logic::LogicState;
use crate::logic::nodes::Nodes;
use crate::logic::output::{Output, Slot};
use crate::logic::register::Register;
use crate::topology::{
    carries, first_clash, first_dangling, first_loop, wiring_fanin, TopologyError,
};

verus! {

/// A network: its gates, registers and constants, each addressed by its
/// index, and the number of rising ticks it has been through.
pub struct Network {
    pub gates: Seq<Gate>,
    pub registers: Seq<Register>,
    pub constants: Seq<Constant>,
    pub cycle_count: nat,
}

/// The nodes after the first `count` constants have driven their wiring, one
/// after the other.
pub open spec fn drive_constants(
    constants: Seq<Constant>,
    nodes: Nodes,
    rising: bool,
    count: nat,
) -> Nodes
    decreases count,
{
    if count == 0 {
        nodes
    } else {
        let before = drive_constants(constants, nodes, rising, (count - 1) as nat);
        let constant = constants[count - 1];
        constant.output.deliver(before, rising, constant.state)
    }
}

/// The nodes after those of the first `count` registers that are active on
/// the edge `rising` have driven their latched level into their wiring, one
/// after the other.
pub open spec fn drive_registers(nodes: Nodes, rising: bool, count: nat) -> Nodes
    decreases count,
{
    if count == 0 {
        nodes
    } else {
        let before = drive_registers(nodes, rising, (count - 1) as nat);
        before.registers[count - 1].drive(before, rising)
    }
}

/// How often gate `gate` evaluates while the first `count`
/// constants drive their wiring, one after the other.
pub open spec fn constant_evaluations(
    constants: Seq<Constant>,
    nodes: Nodes,
    rising: bool,
    count: nat,
    gate: int,
) -> nat
    decreases count,
{
    if count == 0 {
        0
    } else {
        let before = drive_constants(constants, nodes, rising, (count - 1) as nat);
        let constant = constants[count - 1];
        constant_evaluations(constants, nodes, rising, (count - 1) as nat, gate)
            + constant.output.evaluations(before, rising, constant.state, gate)
    }
}

/// How often gate `gate` evaluates while those of the first
/// `count` registers that are active on the edge `rising` drive their
/// wiring, one after the other.
pub open spec fn register_evaluations(nodes: Nodes, rising: bool, count: nat, gate: int) -> nat
    decreases count,
{
    if count == 0 {
        0
    } else {
        let before = drive_registers(nodes, rising, (count - 1) as nat);
        let register = before.registers[count - 1];
        register_evaluations(nodes, rising, (count - 1) as nat, gate) + if register.rising
            == rising {
            register.output.evaluations(before, rising, register.state, gate)
        } else {
            0
        }
    }
}

/// How many deliveries `slot` gets while the first `count` constants drive
/// their wiring, one after the other.
pub open spec fn constant_deliveries(
    constants: Seq<Constant>,
    nodes: Nodes,
    rising: bool,
    count: nat,
    slot: Slot,
) -> nat
    decreases count,
{
    if count == 0 {
        0
    } else {
        let before = drive_constants(constants, nodes, rising, (count - 1) as nat);
        let constant = constants[count - 1];
        constant_deliveries(constants, nodes, rising, (count - 1) as nat, slot)
            + constant.output.deliveries(before, rising, constant.state, slot)
    }
}

/// How many deliveries `slot` gets while those of the first `count`
/// registers that are active on the edge `rising` drive their wiring, one
/// after the other.
pub open spec fn register_deliveries(nodes: Nodes, rising: bool, count: nat, slot: Slot) -> nat
    decreases count,
{
    if count == 0 {
        0
    } else {
        let before = drive_registers(nodes, rising, (count - 1) as nat);
        let register = before.registers[count - 1];
        register_deliveries(nodes, rising, (count - 1) as nat, slot) + if register.rising
            == rising {
            register.output.deliveries(before, rising, register.state, slot)
        } else {
            0
        }
    }
}

/// The level that is delivered to `slot` while the first `count` constants
/// drive their wiring, one after the other, if one is.
pub open spec fn constant_delivered(
    constants: Seq<Constant>,
    nodes: Nodes,
    rising: bool,
    count: nat,
    slot: Slot,
) -> Option<LogicState>
    decreases count,
{
    if count == 0 {
        None
    } else {
        let before = drive_constants(constants, nodes, rising, (count - 1) as nat);
        let constant = constants[count - 1];
        match constant_delivered(constants, nodes, rising, (count - 1) as nat, slot) {
            Some(level) => Some(level),
            None => constant.output.delivered(before, rising, constant.state, slot),
        }
    }
}

/// The level that is delivered to `slot` while those of the first `count`
/// registers that are active on the edge `rising` drive their wiring, one
/// after the other, if one is.
pub open spec fn register_delivered(nodes: Nodes, rising: bool, count: nat, slot: Slot) -> Option<
    LogicState,
>
    decreases count,
{
    if count == 0 {
        None
    } else {
        let before = drive_registers(nodes, rising, (count - 1) as nat);
        let register = before.registers[count - 1];
        match register_delivered(nodes, rising, (count - 1) as nat, slot) {
            Some(level) => Some(level),
            None => if register.rising == rising {
                register.output.delivered(before, rising, register.state, slot)
            } else {
                None
            },
        }
    }
}

/// How many of the given phases are rising ones.
pub open spec fn rising_ticks(phases: Seq<bool>) -> nat
    decreases phases.len(),
{
    if phases.len() == 0 {
        0
    } else {
        rising_ticks(phases.drop_last()) + if phases.last() {
            1nat
        } else {
            0nat
        }
    }
}

impl Network {
    /// The registers and gates.
    pub open spec fn nodes(self) -> Nodes {
        Nodes { registers: self.registers, gates: self.gates }
    }

    /// The wiring of the gates, by index.
    pub open spec fn gate_wiring(self) -> Seq<Output> {
        Seq::new(self.gates.len(), |index: int| self.gates[index].output)
    }

    /// The wiring of the registers, by index.
    pub open spec fn register_wiring(self) -> Seq<Output> {
        Seq::new(self.registers.len(), |index: int| self.registers[index].output)
    }

    /// The wiring of the constants, by index.
    pub open spec fn constant_wiring(self) -> Seq<Output> {
        Seq::new(self.constants.len(), |index: int| self.constants[index].output)
    }

    /// The wiring of all nodes: that of the constants, then that of the
    /// registers, then that of the gates.
    pub open spec fn wiring(self) -> Seq<Output> {
        self.constant_wiring() + self.register_wiring() + self.gate_wiring()
    }

    /// How many ends of wiring arrive at `slot`, over all nodes.
    pub open spec fn fanin(self, slot: Slot) -> nat {
        wiring_fanin(self.constant_wiring(), slot, self.constants.len()) + wiring_fanin(
            self.register_wiring(),
            slot,
            self.registers.len(),
        ) + wiring_fanin(self.gate_wiring(), slot, self.gates.len())
    }

    /// Whether all wiring arrives at cells that exist.
    pub open spec fn in_bounds(self) -> bool {
        &&& forall|index: int|
            0 <= index < self.constants.len() ==> (#[trigger] self.constants[index]).output.in_bounds(
                self.registers.len(),
                self.gates.len(),
            )
        &&& forall|index: int|
            0 <= index < self.registers.len() ==> (#[trigger] self.registers[index]).output.in_bounds(
                self.registers.len(),
                self.gates.len(),
            )
        &&& forall|index: int|
            0 <= index < self.gates.len() ==> (#[trigger] self.gates[index]).output.in_bounds(
                self.registers.len(),
                self.gates.len(),
            )
    }

    /// Whether no cell has two drivers.
    pub open spec fn single_drivers(self) -> bool {
        forall|slot: Slot| #[trigger] self.fanin(slot) <= 1
    }

    /// Whether the result of gate `index` can pass through as many
    /// gates in a row as the network has, which it can only by passing
    /// through one of them twice: that gate feeds a combinational loop.
    pub open spec fn feeds_loop(self, index: int) -> bool {
        0 <= index < self.gates.len() && carries(
            self.gate_wiring(),
            self.gates[index].output,
            self.gates.len(),
        )
    }

    /// Whether no gate feeds a combinational loop.
    pub open spec fn loop_free(self) -> bool {
        forall|index: int| !#[trigger] self.feeds_loop(index)
    }

    /// Whether the topology is well formed: no wiring dangles, no cell has
    /// two drivers, and the gates form no loop.
    pub open spec fn valid(self) -> bool {
        &&& self.in_bounds()
        &&& self.single_drivers()
        &&& self.loop_free()
    }

    /// What keeps the topology from being well formed, if anything does:
    /// the first dangling end of wiring; else the first end that arrives at
    /// a cell that an earlier end arrives at; else the first gate that feeds
    /// a combinational loop.
    pub open spec fn defect(self) -> Option<TopologyError> {
        match first_dangling(self.wiring(), self.registers.len(), self.gates.len()) {
            Some(slot) => Some(TopologyError::Dangling(slot)),
            None => match first_clash(self.wiring(), Set::empty()) {
                Some(slot) => Some(TopologyError::DoubleDriver(slot)),
                None => match first_loop(self.gate_wiring()) {
                    Some(gate) => Some(TopologyError::Loop(gate)),
                    None => None,
                },
            },
        }
    }

    /// What a defect of the topology says of it.
    pub open spec fn flawed(self, error: TopologyError) -> bool {
        match error {
            TopologyError::Dangling(slot) => {
                &&& !self.in_bounds()
                &&& self.fanin(slot) >= 1
                &&& !self.nodes().has(slot)
            },
            TopologyError::DoubleDriver(slot) => {
                &&& self.in_bounds()
                &&& self.fanin(slot) >= 2
            },
            TopologyError::Loop(gate) => {
                &&& self.in_bounds()
                &&& self.single_drivers()
                &&& self.feeds_loop(gate as int)
                &&& forall|earlier: int| 0 <= earlier < gate ==> !self.feeds_loop(earlier)
            },
            _ => false,
        }
    }

    /// The nodes at the start of a tick: every register has captured the
    /// level at its input, and no input counts as driven.
    pub open spec fn captured(self) -> Nodes {
        Nodes {
            registers: Seq::new(self.registers.len(), |index: int| self.registers[index].captured()),
            gates: Seq::new(self.gates.len(), |index: int| self.gates[index].cleared()),
        }
    }

    /// The nodes at the end of a tick of phase `rising`: after the capture,
    /// every constant and then every register that is active on that edge
    /// has driven its wiring.
    pub open spec fn settled(self, rising: bool) -> Nodes {
        drive_registers(
            drive_constants(self.constants, self.captured(), rising, self.constants.len()),
            rising,
            self.registers.len(),
        )
    }

    /// How often gate `gate` evaluates in a tick of phase
    /// `rising`.
    pub open spec fn evaluations(self, rising: bool, gate: int) -> nat {
        let driven = drive_constants(self.constants, self.captured(), rising, self.constants.len());
        constant_evaluations(self.constants, self.captured(), rising, self.constants.len(), gate)
            + register_evaluations(driven, rising, self.registers.len(), gate)
    }

    /// How many deliveries `slot` gets in a tick of phase `rising`.
    pub open spec fn deliveries(self, rising: bool, slot: Slot) -> nat {
        let driven = drive_constants(self.constants, self.captured(), rising, self.constants.len());
        constant_deliveries(self.constants, self.captured(), rising, self.constants.len(), slot)
            + register_deliveries(driven, rising, self.registers.len(), slot)
    }

    /// The level that is delivered to `slot` in a tick of phase `rising`, if
    /// one is.
    pub open spec fn delivered(self, rising: bool, slot: Slot) -> Option<LogicState> {
        let driven = drive_constants(self.constants, self.captured(), rising, self.constants.len());
        match constant_delivered(
            self.constants,
            self.captured(),
            rising,
            self.constants.len(),
            slot,
        ) {
            Some(level) => Some(level),
            None => register_delivered(driven, rising, self.registers.len(), slot),
        }
    }

    /// What the register at `index` is after a tick of phase `rising`: it
    /// has latched the level that was at its input, and its input holds the
    /// level that is delivered to it in the tick, as the hazard rule has it,
    /// or else the level it held, not driven.
    pub open spec fn register_after(self, rising: bool, index: usize) -> Register
        recommends
            index < self.registers.len(),
    {
        let register = self.registers[index as int];
        Register {
            state: register.input.state,
            input: match self.delivered(rising, Slot::Register(index)) {
                Some(level) => Input::driven_with(Register::hazard(register.rising, rising, level)),
                None => register.input.cleared(),
            },
            ..register
        }
    }

    /// What gate `index` is after a tick of phase `rising`: each input holds
    /// the level that is delivered to it in the tick, or else the level it
    /// held, not driven; and it shows what its operator makes of the two
    /// levels if both inputs get one, or else what it showed.
    pub open spec fn gate_after(self, rising: bool, index: usize) -> Gate
        recommends
            index < self.gates.len(),
    {
        let gate = self.gates[index as int];
        let left = self.delivered(rising, Slot::Gate(index, false));
        let right = self.delivered(rising, Slot::Gate(index, true));
        Gate {
            left_input: match left {
                Some(level) => Input::driven_with(level),
                None => gate.left_input.cleared(),
            },
            right_input: match right {
                Some(level) => Input::driven_with(level),
                None => gate.right_input.cleared(),
            },
            state: if left is Some && right is Some {
                left->0.combine(right->0, gate.operator)
            } else {
                gate.state
            },
            ..gate
        }
    }

    /// The network after the ticks of the given phases, one after the
    /// other.
    pub open spec fn run(self, phases: Seq<bool>) -> Network
        decreases phases.len(),
    {
        if phases.len() == 0 {
            self
        } else {
            self.run(phases.drop_last()).tick(phases.last())
        }
    }

    /// The network after one tick of phase `rising`. The cycle count goes up
    /// on a rising tick and on no other.
    pub open spec fn tick(self, rising: bool) -> Network {
        let nodes = self.settled(rising);
        Network {
            gates: nodes.gates,
            registers: nodes.registers,
            constants: self.constants,
            cycle_count: if rising {
                self.cycle_count + 1
            } else {
                self.cycle_count
            },
        }
    }
}

} // verus!
