//! Wiring: where the value that a node drives is delivered.

use vstd::prelude::*;
use super::cascade::{
    lemma_cascade, lemma_completion, lemma_left_branch, lemma_pending_bound, lemma_right_branch,
};
use super::gate::Gate;
use super::logic::LogicState;
use super::nodes::Nodes;
use super::register::Register;

verus! {

/// One receiving cell of the network: the input of a register, or one of
/// the two inputs of a gate (`true` names the right one).
#[derive(Copy, Clone, Debug, PartialEq, Eq, Structural)]
pub enum Slot {
    Register(usize),
    Gate(usize, bool),
}

impl Slot {
    /// Whether the slot exists in a network of that many registers and gates.
    pub open spec fn in_bounds(self, registers: nat, gates: nat) -> bool {
        match self {
            Slot::Register(index) => index < registers,
            Slot::Gate(index, _) => index < gates,
        }
    }
}

/// A wiring descriptor: the input of the register at an index, one input of
/// a gate at an index, or a fan-out to two further descriptors.
#[derive(Debug, PartialEq, Eq)]
pub enum Output {
    Register(usize),
    Gate(usize, bool),
    Splitter(Box<Output>, Box<Output>),
}

impl Output {
    /// How many ends of this wiring arrive at `slot`.
    pub open spec fn fanin(self, slot: Slot) -> nat
        decreases self,
    {
        match self {
            Output::Register(index) => if slot == Slot::Register(index) {
                1
            } else {
                0
            },
            Output::Gate(index, right) => if slot == Slot::Gate(index, right) {
                1
            } else {
                0
            },
            Output::Splitter(left, right) => left.fanin(slot) + right.fanin(slot),
        }
    }

    /// Whether every end of this wiring arrives at a cell that exists in a
    /// network of that many registers and gates.
    pub open spec fn in_bounds(self, registers: nat, gates: nat) -> bool
        decreases self,
    {
        match self {
            Output::Register(index) => index < registers,
            Output::Gate(index, _) => index < gates,
            Output::Splitter(left, right) => left.in_bounds(registers, gates) && right.in_bounds(
                registers,
                gates,
            ),
        }
    }
}

impl Output {
    /// The nodes after `state` has been driven into this wiring in a tick of
    /// phase `rising`, with the cascade cut off after `budget` gate
    /// evaluations.
    ///
    /// A register end applies the hazard rule to the register's input. A
    /// gate end writes that gate's input; if both inputs of that gate have
    /// then been driven, that gate evaluates and, while the budget lasts,
    /// drives its result into its own wiring. A splitter delivers to its
    /// left branch and then to its right one.
    pub open spec fn deliver_within(
        self,
        nodes: Nodes,
        rising: bool,
        state: LogicState,
        budget: nat,
    ) -> Nodes
        decreases budget, self,
    {
        match self {
            Output::Register(index) => nodes.latch(index, rising, state),
            Output::Gate(index, right) => {
                let fed = nodes.feed(index, right, state);
                if fed.gates[index as int].both_driven() {
                    let settled = fed.settle(index);
                    if budget == 0 {
                        settled
                    } else {
                        settled.gates[index as int].output.deliver_within(
                            settled,
                            rising,
                            settled.gates[index as int].state,
                            (budget - 1) as nat,
                        )
                    }
                } else {
                    fed
                }
            },
            Output::Splitter(left, right) => right.deliver_within(
                left.deliver_within(nodes, rising, state, budget),
                rising,
                state,
                budget,
            ),
        }
    }

    /// The nodes after `state` has been driven into this wiring in a tick of
    /// phase `rising` and the cascade has run its course.
    ///
    /// Where every cell gets one delivery at most (see `ready`), no gate
    /// evaluates twice, so a budget of one evaluation for each gate is never
    /// used up.
    pub open spec fn deliver(self, nodes: Nodes, rising: bool, state: LogicState) -> Nodes {
        self.deliver_within(nodes, rising, state, nodes.gates.len())
    }

    /// How often gate `gate` evaluates while `state` is driven
    /// into this wiring, with the cascade cut off after `budget` gate
    /// evaluations.
    pub open spec fn evaluations_within(
        self,
        nodes: Nodes,
        rising: bool,
        state: LogicState,
        budget: nat,
        gate: int,
    ) -> nat
        decreases budget, self,
    {
        match self {
            Output::Register(_) => 0,
            Output::Gate(index, right) => {
                let fed = nodes.feed(index, right, state);
                if fed.gates[index as int].both_driven() {
                    let settled = fed.settle(index);
                    let here: nat = if index == gate {
                        1
                    } else {
                        0
                    };
                    if budget == 0 {
                        here
                    } else {
                        here + settled.gates[index as int].output.evaluations_within(
                            settled,
                            rising,
                            settled.gates[index as int].state,
                            (budget - 1) as nat,
                            gate,
                        )
                    }
                } else {
                    0
                }
            },
            Output::Splitter(left, right) => left.evaluations_within(
                nodes,
                rising,
                state,
                budget,
                gate,
            ) + right.evaluations_within(
                left.deliver_within(nodes, rising, state, budget),
                rising,
                state,
                budget,
                gate,
            ),
        }
    }

    /// How often gate `gate` evaluates while `state` is driven
    /// into this wiring and the cascade runs its course.
    pub open spec fn evaluations(self, nodes: Nodes, rising: bool, state: LogicState, gate: int) -> nat {
        self.evaluations_within(nodes, rising, state, nodes.gates.len(), gate)
    }

    /// How many deliveries `slot` gets while `state` is driven into this
    /// wiring, with the cascade cut off after `budget` gate evaluations.
    pub open spec fn deliveries_within(
        self,
        nodes: Nodes,
        rising: bool,
        state: LogicState,
        budget: nat,
        slot: Slot,
    ) -> nat
        decreases budget, self,
    {
        match self {
            Output::Register(index) => if slot == Slot::Register(index) {
                1
            } else {
                0
            },
            Output::Gate(index, right) => {
                let fed = nodes.feed(index, right, state);
                let here: nat = if slot == Slot::Gate(index, right) {
                    1
                } else {
                    0
                };
                if fed.gates[index as int].both_driven() && budget > 0 {
                    let settled = fed.settle(index);
                    here + settled.gates[index as int].output.deliveries_within(
                        settled,
                        rising,
                        settled.gates[index as int].state,
                        (budget - 1) as nat,
                        slot,
                    )
                } else {
                    here
                }
            },
            Output::Splitter(left, right) => left.deliveries_within(
                nodes,
                rising,
                state,
                budget,
                slot,
            ) + right.deliveries_within(
                left.deliver_within(nodes, rising, state, budget),
                rising,
                state,
                budget,
                slot,
            ),
        }
    }

    /// How many deliveries `slot` gets while `state` is driven into this
    /// wiring and the cascade runs its course.
    pub open spec fn deliveries(self, nodes: Nodes, rising: bool, state: LogicState, slot: Slot) -> nat {
        self.deliveries_within(nodes, rising, state, nodes.gates.len(), slot)
    }

    /// The level that is delivered to `slot` while `state` is driven into
    /// this wiring, if one is, with the cascade cut off after `budget` gate
    /// evaluations. Where there are several, it is that of the first.
    pub open spec fn delivered_within(
        self,
        nodes: Nodes,
        rising: bool,
        state: LogicState,
        budget: nat,
        slot: Slot,
    ) -> Option<LogicState>
        decreases budget, self,
    {
        match self {
            Output::Register(index) => if slot == Slot::Register(index) {
                Some(state)
            } else {
                None
            },
            Output::Gate(index, right) => {
                let fed = nodes.feed(index, right, state);
                if slot == Slot::Gate(index, right) {
                    Some(state)
                } else if fed.gates[index as int].both_driven() && budget > 0 {
                    let settled = fed.settle(index);
                    settled.gates[index as int].output.delivered_within(
                        settled,
                        rising,
                        settled.gates[index as int].state,
                        (budget - 1) as nat,
                        slot,
                    )
                } else {
                    None
                }
            },
            Output::Splitter(left, right) => match left.delivered_within(
                nodes,
                rising,
                state,
                budget,
                slot,
            ) {
                Some(level) => Some(level),
                None => right.delivered_within(
                    left.deliver_within(nodes, rising, state, budget),
                    rising,
                    state,
                    budget,
                    slot,
                ),
            },
        }
    }

    /// The level that is delivered to `slot` while `state` is driven into
    /// this wiring and the cascade runs its course, if one is.
    pub open spec fn delivered(
        self,
        nodes: Nodes,
        rising: bool,
        state: LogicState,
        slot: Slot,
    ) -> Option<LogicState> {
        self.delivered_within(nodes, rising, state, nodes.gates.len(), slot)
    }

    /// Whether a value can be driven into this wiring: all wiring stays
    /// inside the network, and no cell is in for a second delivery in this
    /// tick. For each cell, the ends of this wiring that arrive at it, the
    /// ends of the wiring of waiting gates, and the
    /// delivery it has had, if any, add up to one at most.
    pub open spec fn ready(self, nodes: Nodes) -> bool {
        &&& self.in_bounds(nodes.registers.len(), nodes.gates.len())
        &&& nodes.wired()
        &&& forall|slot: Slot| self.fanin(slot) + #[trigger] nodes.potential(slot) <= 1
    }
}

impl Output {
    /// Drives `state` into this wiring in a tick of phase `rising`, and lets
    /// the cascade run its course: every gate whose pair of inputs is
    /// completed on the way evaluates at once and drives its result on.
    pub fn update(
        &self,
        registers: &mut Vec<Register>,
        gates: &mut Vec<Gate>,
        rising: bool,
        state: LogicState,
    )
        requires
            self.ready((Nodes { registers: old(registers)@, gates: old(gates)@ })),
        ensures
            (Nodes { registers: final(registers)@, gates: final(gates)@ }) == self.deliver(
                (Nodes { registers: old(registers)@, gates: old(gates)@ }),
                rising,
                state,
            ),
        decreases (Nodes { registers: old(registers)@, gates: old(gates)@ }).pending(), self,
    {
        let ghost nodes = Nodes { registers: registers@, gates: gates@ };
        let ghost budget = nodes.gates.len();
        proof {
            lemma_pending_bound(nodes.gates, nodes.gates.len());
        }
        match self {
            Output::Register(index) => {
                if rising == registers[*index].rising {
                    registers[*index].input.update(LogicState::Metastable);
                } else {
                    registers[*index].input.update(state);
                }
                assert(registers@ =~= nodes.latch(*index, rising, state).registers);
            },
            Output::Gate(index, right) => {
                if *right {
                    gates[*index].right_input.update(state);
                } else {
                    gates[*index].left_input.update(state);
                }
                assert(gates@ =~= nodes.feed(*index, *right, state).gates);
                let gate = gates[*index].clone();
                if gate.left_input.updated && gate.right_input.updated {
                    let result = gate.left_input.state.operator(gate.right_input.state, gate.operator);
                    gates[*index].state = result;
                    let ghost settled = nodes.feed(*index, *right, state).settle(*index);
                    assert(gates@ =~= settled.gates);
                    proof {
                        lemma_completion(nodes, *index, *right, state);
                        lemma_cascade(gate.output, settled, rising, result, budget);
                        lemma_cascade(gate.output, settled, rising, result, (budget - 1) as nat);
                    }
                    gate.output.update(registers, gates, rising, result);
                }
            },
            Output::Splitter(left_output, right_output) => {
                proof {
                    lemma_left_branch(**left_output, **right_output, nodes);
                    lemma_cascade(**left_output, nodes, rising, state, budget);
                    lemma_right_branch(
                        **left_output,
                        **right_output,
                        nodes,
                        left_output.deliver(nodes, rising, state),
                    );
                }
                left_output.update(registers, gates, rising, state);
                right_output.update(registers, gates, rising, state);
            },
        }
    }
}

impl Clone for Output {
    fn clone(&self) -> (result: Self)
        ensures
            result == *self,
        decreases self,
    {
        match self {
            Output::Register(index) => Output::Register(*index),
            Output::Gate(index, right) => Output::Gate(*index, *right),
            Output::Splitter(left, right) => Output::Splitter(
                Box::new((&**left).clone()),
                Box::new((&**right).clone()),
            ),
        }
    }
}

} // verus!
