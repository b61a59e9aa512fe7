//! What holds of a cascade in a network where no cell is driven twice.

use vstd::prelude::*;
use super::gate::Gate;
use super::logic::LogicState;
use super::nodes::{backlog_of, pending_of, Nodes};
use super::output::{Output, Slot};
use crate::topology::lemma_end_in_bounds;

verus! {

/// Whether two rows of gates are wired alike and agree on which gates are
/// waiting, but for gate `index`, of which only the wiring is known to be the
/// same.
pub open spec fn alike_but_at(before: Seq<Gate>, after: Seq<Gate>, index: int) -> bool {
    &&& before.len() == after.len()
    &&& forall|other: int|
        0 <= other < before.len() ==> (#[trigger] after[other]).output == before[other].output
    &&& forall|other: int|
        0 <= other < before.len() && other != index ==> (#[trigger] after[other]).both_driven()
            == before[other].both_driven()
}

/// The backlog changes by the wiring of the one gate that has started or
/// stopped waiting.
pub proof fn lemma_backlog_step(
    before: Seq<Gate>,
    after: Seq<Gate>,
    index: int,
    slot: Slot,
    count: nat,
)
    requires
        alike_but_at(before, after, index),
        0 <= index < before.len(),
        count <= before.len(),
    ensures
        backlog_of(after, slot, count) + (if index < count && !before[index].both_driven() {
            before[index].output.fanin(slot)
        } else {
            0
        }) == backlog_of(before, slot, count) + (if index < count && !after[index].both_driven() {
            before[index].output.fanin(slot)
        } else {
            0
        }),
    decreases count,
{
    if count > 0 {
        lemma_backlog_step(before, after, index, slot, (count - 1) as nat);
        let last = count - 1;
        assert(after[last].output == before[last].output);
        if last != index {
            assert(after[last].both_driven() == before[last].both_driven());
        }
    }
}

/// The number of waiting gates changes by the one gate that has started or
/// stopped waiting.
pub proof fn lemma_pending_step(before: Seq<Gate>, after: Seq<Gate>, index: int, count: nat)
    requires
        alike_but_at(before, after, index),
        0 <= index < before.len(),
        count <= before.len(),
    ensures
        pending_of(after, count) + (if index < count && !before[index].both_driven() {
            1nat
        } else {
            0nat
        }) == pending_of(before, count) + (if index < count && !after[index].both_driven() {
            1nat
        } else {
            0nat
        }),
    decreases count,
{
    if count > 0 {
        lemma_pending_step(before, after, index, (count - 1) as nat);
        let last = count - 1;
        if last != index {
            assert(after[last].both_driven() == before[last].both_driven());
        }
    }
}

/// No more gates are waiting than there are.
pub proof fn lemma_pending_bound(gates: Seq<Gate>, count: nat)
    ensures
        pending_of(gates, count) <= count,
    decreases count,
{
    if count > 0 {
        lemma_pending_bound(gates, (count - 1) as nat);
    }
}

/// What the delivery that completes a gate's pair of inputs leaves behind.
/// In a network that is ready for a delivery to one input of a gate whose
/// other input has been driven: that gate was waiting until now, and once
/// it has evaluated the network is ready for its result to be driven into
/// its wiring, with one gate fewer waiting.
pub proof fn lemma_completion(nodes: Nodes, index: usize, right: bool, state: LogicState)
    requires
        Output::Gate(index, right).ready(nodes),
        nodes.feed(index, right, state).gates[index as int].both_driven(),
    ensures
        ({
            let settled = nodes.feed(index, right, state).settle(index);
            let wiring = nodes.gates[index as int].output;
            &&& settled.gates[index as int].output == wiring
            &&& settled.same_wiring(nodes)
            &&& settled.registers == nodes.registers
            &&& wiring.ready(settled)
            &&& settled.pending() + 1 == nodes.pending()
            &&& forall|slot: Slot|
                wiring.fanin(slot) + #[trigger] settled.potential(slot) == Output::Gate(
                    index,
                    right,
                ).fanin(slot) + nodes.potential(slot)
        }),
{
    let output = Output::Gate(index, right);
    let target = Slot::Gate(index, right);
    assert(output.fanin(target) + nodes.potential(target) <= 1);
    assert(!nodes.driven(target));
    let fed = nodes.feed(index, right, state);
    let settled = fed.settle(index);
    let wiring = nodes.gates[index as int].output;
    assert(alike_but_at(nodes.gates, settled.gates, index as int));
    lemma_pending_step(nodes.gates, settled.gates, index as int, nodes.gates.len());
    assert forall|slot: Slot| settled.driven(slot) == (nodes.driven(slot) || slot == target) by {
        match slot {
            Slot::Register(_) => {},
            Slot::Gate(other, side) => {
                if other != index && other < nodes.gates.len() {
                    assert(settled.gates[other as int] == nodes.gates[other as int]);
                }
            },
        }
    }
    assert forall|slot: Slot|
        wiring.fanin(slot) + #[trigger] settled.potential(slot) == output.fanin(slot)
            + nodes.potential(slot) by {
        lemma_backlog_step(nodes.gates, settled.gates, index as int, slot, nodes.gates.len());
    }
    assert(wiring.ready(settled)) by {
        assert(nodes.gates[index as int].output.in_bounds(
            nodes.registers.len(),
            nodes.gates.len(),
        ));
        assert forall|other: int| 0 <= other < settled.gates.len() implies (
        #[trigger] settled.gates[other]).output.in_bounds(
            settled.registers.len(),
            settled.gates.len(),
        ) by {
            assert(nodes.gates[other].output.in_bounds(nodes.registers.len(), nodes.gates.len()));
        }
        assert forall|slot: Slot| wiring.fanin(slot) + #[trigger] settled.potential(slot) <= 1 by {
            assert(output.fanin(slot) + nodes.potential(slot) <= 1);
        }
    }
}

/// A network that is ready for a splitter is ready for its left branch.
pub proof fn lemma_left_branch(left: Output, right: Output, nodes: Nodes)
    requires
        Output::Splitter(Box::new(left), Box::new(right)).ready(nodes),
    ensures
        left.ready(nodes),
{
    let output = Output::Splitter(Box::new(left), Box::new(right));
    assert forall|slot: Slot| left.fanin(slot) + #[trigger] nodes.potential(slot) <= 1 by {
        assert(output.fanin(slot) + nodes.potential(slot) <= 1);
    }
}

/// A network that is ready for a splitter is, once the left branch has been
/// served, ready for the right one.
pub proof fn lemma_right_branch(left: Output, right: Output, nodes: Nodes, middle: Nodes)
    requires
        Output::Splitter(Box::new(left), Box::new(right)).ready(nodes),
        middle.same_wiring(nodes),
        forall|slot: Slot| #[trigger] middle.potential(slot) == left.fanin(slot) + nodes.potential(slot),
    ensures
        right.ready(middle),
{
    let output = Output::Splitter(Box::new(left), Box::new(right));
    assert forall|slot: Slot| right.fanin(slot) + #[trigger] middle.potential(slot) <= 1 by {
        assert(output.fanin(slot) + nodes.potential(slot) <= 1);
    }
    assert forall|other: int| 0 <= other < middle.gates.len() implies (
    #[trigger] middle.gates[other]).output.in_bounds(
        middle.registers.len(),
        middle.gates.len(),
    ) by {
        assert(nodes.gates[other].output.in_bounds(nodes.registers.len(), nodes.gates.len()));
    }
}

/// The conservation law of a cascade. In a network that is ready for it:
/// the wiring stays as it is; for every cell, the deliveries it has had or
/// may still get after the cascade are those of before plus the ends of the
/// driven wiring that arrive at it; no gate goes back to waiting; and the
/// cascade is over within one evaluation for each gate that was waiting, so
/// any larger budget gives the same nodes.
pub proof fn lemma_cascade(
    output: Output,
    nodes: Nodes,
    rising: bool,
    state: LogicState,
    budget: nat,
)
    requires
        output.ready(nodes),
        budget >= nodes.pending(),
    ensures
        ({
            let after = output.deliver_within(nodes, rising, state, budget);
            &&& after.same_wiring(nodes)
            &&& forall|slot: Slot| #[trigger]
                after.potential(slot) == output.fanin(slot) + nodes.potential(slot)
            &&& after.pending() <= nodes.pending()
            &&& after == output.deliver_within(nodes, rising, state, nodes.pending())
        }),
    decreases budget, output,
{
    let after = output.deliver_within(nodes, rising, state, budget);
    match output {
        Output::Register(index) => {
            let target = Slot::Register(index);
            assert(output.fanin(target) + nodes.potential(target) <= 1);
            assert(!nodes.driven(target));
            assert forall|slot: Slot| #[trigger]
                after.potential(slot) == output.fanin(slot) + nodes.potential(slot) by {
                assert(after.driven(slot) == (nodes.driven(slot) || slot == target));
            }
        },
        Output::Gate(index, right) => {
            let target = Slot::Gate(index, right);
            assert(output.fanin(target) + nodes.potential(target) <= 1);
            assert(!nodes.driven(target));
            let fed = nodes.feed(index, right, state);
            if fed.gates[index as int].both_driven() {
                lemma_completion(nodes, index, right, state);
                let settled = fed.settle(index);
                let wiring = settled.gates[index as int].output;
                let level = settled.gates[index as int].state;
                lemma_cascade(wiring, settled, rising, level, (budget - 1) as nat);
                assert(after == wiring.deliver_within(settled, rising, level, (budget - 1) as nat));
                assert(after.same_wiring(nodes)) by {
                    assert(after.same_wiring(settled));
                    assert forall|other: int| 0 <= other < after.gates.len() implies {
                        &&& (#[trigger] after.gates[other]).output == nodes.gates[other].output
                        &&& after.gates[other].operator == nodes.gates[other].operator
                    } by {
                        assert(settled.gates[other].output == nodes.gates[other].output);
                    }
                }
                assert forall|slot: Slot| #[trigger]
                    after.potential(slot) == output.fanin(slot) + nodes.potential(slot) by {
                    assert(wiring.fanin(slot) + settled.potential(slot) == output.fanin(slot)
                        + nodes.potential(slot));
                }
            } else {
                assert(after == fed);
                assert(alike_but_at(nodes.gates, fed.gates, index as int));
                lemma_pending_step(nodes.gates, fed.gates, index as int, nodes.gates.len());
                assert forall|slot: Slot| fed.driven(slot) == (nodes.driven(slot) || slot
                    == target) by {
                    match slot {
                        Slot::Register(_) => {},
                        Slot::Gate(other, side) => {
                            if other != index && other < nodes.gates.len() {
                                assert(fed.gates[other as int] == nodes.gates[other as int]);
                            }
                        },
                    }
                }
                assert forall|slot: Slot| #[trigger]
                    after.potential(slot) == output.fanin(slot) + nodes.potential(slot) by {
                    lemma_backlog_step(nodes.gates, fed.gates, index as int, slot, nodes.gates.len());
                }
            }
        },
        Output::Splitter(left, right) => {
            lemma_left_branch(*left, *right, nodes);
            lemma_cascade(*left, nodes, rising, state, budget);
            let middle = left.deliver_within(nodes, rising, state, budget);
            lemma_right_branch(*left, *right, nodes, middle);
            lemma_cascade(*right, middle, rising, state, budget);
            lemma_cascade(*right, middle, rising, state, nodes.pending());
            assert forall|slot: Slot| #[trigger]
                after.potential(slot) == output.fanin(slot) + nodes.potential(slot) by {
                assert(middle.potential(slot) == left.fanin(slot) + nodes.potential(slot));
            }
        },
    }
}

/// What a cascade keeps. In a network that is ready for it, the nodes after
/// a cascade follow those before it: what had been driven or evaluated is
/// not touched again, and every gate that evaluates on the way ends up
/// showing what its operator makes of the two levels at its inputs.
pub proof fn lemma_cascade_follows(
    output: Output,
    nodes: Nodes,
    rising: bool,
    state: LogicState,
    budget: nat,
)
    requires
        output.ready(nodes),
        budget >= nodes.pending(),
    ensures
        output.deliver_within(nodes, rising, state, budget).follows(nodes),
    decreases budget, output,
{
    let after = output.deliver_within(nodes, rising, state, budget);
    lemma_cascade(output, nodes, rising, state, budget);
    match output {
        Output::Register(index) => {
            let target = Slot::Register(index);
            assert(output.fanin(target) + nodes.potential(target) <= 1);
            assert(!nodes.driven(target));
        },
        Output::Gate(index, right) => {
            let target = Slot::Gate(index, right);
            assert(output.fanin(target) + nodes.potential(target) <= 1);
            assert(!nodes.driven(target));
            let fed = nodes.feed(index, right, state);
            if fed.gates[index as int].both_driven() {
                lemma_completion(nodes, index, right, state);
                let settled = fed.settle(index);
                let wiring = settled.gates[index as int].output;
                let level = settled.gates[index as int].state;
                lemma_cascade_follows(wiring, settled, rising, level, (budget - 1) as nat);
                assert(settled.follows(nodes));
                lemma_follows_on(nodes, settled, after);
            }
        },
        Output::Splitter(left, right) => {
            lemma_left_branch(*left, *right, nodes);
            lemma_cascade(*left, nodes, rising, state, budget);
            let middle = left.deliver_within(nodes, rising, state, budget);
            lemma_right_branch(*left, *right, nodes, middle);
            lemma_cascade_follows(*left, nodes, rising, state, budget);
            lemma_cascade_follows(*right, middle, rising, state, budget);
            lemma_follows_on(nodes, middle, after);
        },
    }
}

/// Nodes that follow nodes that follow others follow those.
pub proof fn lemma_follows_on(before: Nodes, middle: Nodes, after: Nodes)
    requires
        middle.follows(before),
        after.follows(middle),
    ensures
        after.follows(before),
{
    assert forall|index: int| 0 <= index < after.registers.len() implies {
        &&& (#[trigger] after.registers[index]).state == before.registers[index].state
        &&& before.registers[index].input.updated || !after.registers[index].input.updated
            ==> after.registers[index].input == before.registers[index].input
    } by {
        assert(middle.registers[index].state == before.registers[index].state);
    }
    assert forall|index: int| 0 <= index < after.gates.len() implies {
        &&& before.gates[index].left_input.updated || !(
        #[trigger] after.gates[index]).left_input.updated ==> after.gates[index].left_input
            == before.gates[index].left_input
        &&& before.gates[index].right_input.updated || !after.gates[index].right_input.updated
            ==> after.gates[index].right_input == before.gates[index].right_input
        &&& if before.gates[index].both_driven() {
            after.gates[index] == before.gates[index]
        } else if after.gates[index].both_driven() {
            after.gates[index].state == after.gates[index].evaluation()
        } else {
            after.gates[index].state == before.gates[index].state
        }
    } by {
        let gate = middle.gates[index];
        assert(gate.output == before.gates[index].output);
    }
}

/// Where a cascade arrives. In a network that is ready for it, every cell
/// that an end of the driven wiring arrives at holds the delivered level
/// afterwards, a register's input as the hazard rule has it.
pub proof fn lemma_cascade_arrives(
    output: Output,
    nodes: Nodes,
    rising: bool,
    state: LogicState,
    budget: nat,
    slot: Slot,
)
    requires
        output.ready(nodes),
        budget >= nodes.pending(),
        output.fanin(slot) >= 1,
    ensures
        output.deliver_within(nodes, rising, state, budget).input(slot) == nodes.arriving(
            slot,
            rising,
            state,
        ),
    decreases output,
{
    let after = output.deliver_within(nodes, rising, state, budget);
    lemma_cascade(output, nodes, rising, state, budget);
    match output {
        Output::Register(index) => {},
        Output::Gate(index, right) => {
            let fed = nodes.feed(index, right, state);
            if fed.gates[index as int].both_driven() {
                lemma_completion(nodes, index, right, state);
                let settled = fed.settle(index);
                let wiring = settled.gates[index as int].output;
                let level = settled.gates[index as int].state;
                lemma_cascade_follows(wiring, settled, rising, level, (budget - 1) as nat);
                assert(settled.driven(slot));
            }
        },
        Output::Splitter(left, right) => {
            lemma_left_branch(*left, *right, nodes);
            lemma_cascade(*left, nodes, rising, state, budget);
            let middle = left.deliver_within(nodes, rising, state, budget);
            lemma_right_branch(*left, *right, nodes, middle);
            if left.fanin(slot) >= 1 {
                lemma_cascade_arrives(*left, nodes, rising, state, budget, slot);
                lemma_cascade_follows(*right, middle, rising, state, budget);
                lemma_end_in_bounds(*left, slot, nodes.registers.len(), nodes.gates.len());
                assert(middle.driven(slot));
            } else {
                lemma_cascade_arrives(*right, middle, rising, state, budget, slot);
                lemma_end_in_bounds(*right, slot, nodes.registers.len(), nodes.gates.len());
            }
        },
    }
}

/// One for a gate that was waiting before and is not any more, else zero.
pub open spec fn newly_evaluated(before: Nodes, after: Nodes, gate: int) -> nat {
    if 0 <= gate < before.gates.len() && !before.gates[gate].both_driven()
        && after.gates[gate].both_driven() {
        1
    } else {
        0
    }
}

/// How often a gate evaluates. In a network that is ready for a cascade, a
/// gate evaluates once in it if the cascade completes its pair of inputs,
/// and not at all if it does not or if the pair was complete before.
pub proof fn lemma_cascade_evaluations(
    output: Output,
    nodes: Nodes,
    rising: bool,
    state: LogicState,
    budget: nat,
    gate: int,
)
    requires
        output.ready(nodes),
        budget >= nodes.pending(),
    ensures
        output.evaluations_within(nodes, rising, state, budget, gate) == newly_evaluated(
            nodes,
            output.deliver_within(nodes, rising, state, budget),
            gate,
        ),
    decreases budget, output,
{
    let after = output.deliver_within(nodes, rising, state, budget);
    lemma_cascade(output, nodes, rising, state, budget);
    lemma_cascade_follows(output, nodes, rising, state, budget);
    match output {
        Output::Register(index) => {},
        Output::Gate(index, right) => {
            let target = Slot::Gate(index, right);
            assert(output.fanin(target) + nodes.potential(target) <= 1);
            assert(!nodes.driven(target));
            let fed = nodes.feed(index, right, state);
            if fed.gates[index as int].both_driven() {
                lemma_completion(nodes, index, right, state);
                let settled = fed.settle(index);
                let wiring = settled.gates[index as int].output;
                let level = settled.gates[index as int].state;
                lemma_cascade_evaluations(wiring, settled, rising, level, (budget - 1) as nat, gate);
                lemma_cascade_follows(wiring, settled, rising, level, (budget - 1) as nat);
                if 0 <= gate < nodes.gates.len() {
                    if gate == index {
                        assert(after.gates[gate] == settled.gates[gate]);
                    } else {
                        assert(settled.gates[gate] == nodes.gates[gate]);
                    }
                }
            } else {
                if 0 <= gate < nodes.gates.len() && gate != index {
                    assert(fed.gates[gate] == nodes.gates[gate]);
                }
            }
        },
        Output::Splitter(left, right) => {
            lemma_left_branch(*left, *right, nodes);
            lemma_cascade(*left, nodes, rising, state, budget);
            let middle = left.deliver_within(nodes, rising, state, budget);
            lemma_right_branch(*left, *right, nodes, middle);
            lemma_cascade_evaluations(*left, nodes, rising, state, budget, gate);
            lemma_cascade_evaluations(*right, middle, rising, state, budget, gate);
            lemma_cascade_follows(*left, nodes, rising, state, budget);
            lemma_cascade_follows(*right, middle, rising, state, budget);
            if 0 <= gate < nodes.gates.len() {
                if nodes.gates[gate].both_driven() {
                    assert(middle.gates[gate] == nodes.gates[gate]);
                }
                if middle.gates[gate].both_driven() {
                    assert(after.gates[gate] == middle.gates[gate]);
                }
            }
        },
    }
}

/// The hazard rule over a whole cascade. In a network that is ready for it,
/// every register that the cascade reaches on the register's own edge ends
/// up with a metastable level at its input, whatever was delivered.
pub proof fn lemma_cascade_hazards(
    output: Output,
    nodes: Nodes,
    rising: bool,
    state: LogicState,
    budget: nat,
)
    requires
        output.ready(nodes),
        budget >= nodes.pending(),
    ensures
        output.deliver_within(nodes, rising, state, budget).hazards_since(nodes, rising),
    decreases budget, output,
{
    let after = output.deliver_within(nodes, rising, state, budget);
    lemma_cascade(output, nodes, rising, state, budget);
    match output {
        Output::Register(index) => {},
        Output::Gate(index, right) => {
            let fed = nodes.feed(index, right, state);
            if fed.gates[index as int].both_driven() {
                lemma_completion(nodes, index, right, state);
                let settled = fed.settle(index);
                let wiring = settled.gates[index as int].output;
                let level = settled.gates[index as int].state;
                lemma_cascade_hazards(wiring, settled, rising, level, (budget - 1) as nat);
            }
        },
        Output::Splitter(left, right) => {
            lemma_left_branch(*left, *right, nodes);
            lemma_cascade(*left, nodes, rising, state, budget);
            let middle = left.deliver_within(nodes, rising, state, budget);
            lemma_right_branch(*left, *right, nodes, middle);
            lemma_cascade_hazards(*left, nodes, rising, state, budget);
            lemma_cascade_hazards(*right, middle, rising, state, budget);
            lemma_cascade_follows(*right, middle, rising, state, budget);
            assert forall|index: int|
                0 <= index < after.registers.len() && (#[trigger] after.registers[index]).input.updated
                    && !nodes.registers[index].input.updated && after.registers[index].rising
                    == rising implies after.registers[index].input.state == LogicState::Metastable by {
                assert(middle.registers[index].rising == nodes.registers[index].rising);
            }
        },
    }
}

/// One for a cell that had not been driven before and has been since, else
/// zero.
pub open spec fn newly_driven(before: Nodes, after: Nodes, slot: Slot) -> nat {
    if !before.driven(slot) && after.driven(slot) {
        1
    } else {
        0
    }
}

/// How many deliveries a cell gets. In a network that is ready for a
/// cascade, a cell gets one delivery in it if the cascade reaches it, and
/// none if it does not or if the cell had been driven before.
pub proof fn lemma_cascade_deliveries(
    output: Output,
    nodes: Nodes,
    rising: bool,
    state: LogicState,
    budget: nat,
    slot: Slot,
)
    requires
        output.ready(nodes),
        budget >= nodes.pending(),
    ensures
        output.deliveries_within(nodes, rising, state, budget, slot) == newly_driven(
            nodes,
            output.deliver_within(nodes, rising, state, budget),
            slot,
        ),
    decreases budget, output,
{
    let after = output.deliver_within(nodes, rising, state, budget);
    lemma_cascade(output, nodes, rising, state, budget);
    lemma_cascade_follows(output, nodes, rising, state, budget);
    match output {
        Output::Register(index) => {
            let target = Slot::Register(index);
            assert(output.fanin(target) + nodes.potential(target) <= 1);
            assert(!nodes.driven(target));
            assert(after.driven(slot) == (nodes.driven(slot) || slot == target));
        },
        Output::Gate(index, right) => {
            let target = Slot::Gate(index, right);
            assert(output.fanin(target) + nodes.potential(target) <= 1);
            assert(!nodes.driven(target));
            let fed = nodes.feed(index, right, state);
            assert(fed.driven(slot) == (nodes.driven(slot) || slot == target)) by {
                match slot {
                    Slot::Register(_) => {},
                    Slot::Gate(other, side) => {
                        if other != index && other < nodes.gates.len() {
                            assert(fed.gates[other as int] == nodes.gates[other as int]);
                        }
                    },
                }
            }
            if fed.gates[index as int].both_driven() {
                lemma_completion(nodes, index, right, state);
                let settled = fed.settle(index);
                let wiring = settled.gates[index as int].output;
                let level = settled.gates[index as int].state;
                lemma_cascade_deliveries(wiring, settled, rising, level, (budget - 1) as nat, slot);
                lemma_cascade_follows(wiring, settled, rising, level, (budget - 1) as nat);
                assert(settled.driven(slot) == fed.driven(slot)) by {
                    match slot {
                        Slot::Register(_) => {},
                        Slot::Gate(other, side) => {
                            if other != index && other < nodes.gates.len() {
                                assert(settled.gates[other as int] == fed.gates[other as int]);
                            }
                        },
                    }
                }
                lemma_stays_driven(settled, after, slot);
            }
        },
        Output::Splitter(left, right) => {
            lemma_left_branch(*left, *right, nodes);
            lemma_cascade(*left, nodes, rising, state, budget);
            let middle = left.deliver_within(nodes, rising, state, budget);
            lemma_right_branch(*left, *right, nodes, middle);
            lemma_cascade_deliveries(*left, nodes, rising, state, budget, slot);
            lemma_cascade_deliveries(*right, middle, rising, state, budget, slot);
            lemma_cascade_follows(*left, nodes, rising, state, budget);
            lemma_cascade_follows(*right, middle, rising, state, budget);
            lemma_stays_driven(nodes, middle, slot);
            lemma_stays_driven(middle, after, slot);
        },
    }
}

/// A cell that has been driven stays driven in nodes that follow.
pub proof fn lemma_stays_driven(before: Nodes, after: Nodes, slot: Slot)
    requires
        after.follows(before),
    ensures
        before.driven(slot) ==> after.driven(slot) && after.input(slot) == before.input(slot),
{
    if before.driven(slot) {
        match slot {
            Slot::Register(index) => {
                assert(after.registers[index as int].input == before.registers[index as int].input);
            },
            Slot::Gate(index, right) => {
                assert(after.gates[index as int].input(right) == before.gates[index as int].input(
                    right,
                ));
            },
        }
    }
}

/// What a delivery leaves at a cell. In a network that is ready for a
/// cascade, a cell that a level is delivered to had not been driven before
/// and holds that level afterwards, a register's input as the hazard rule
/// has it; and a cell that no level is delivered to is driven or not as it
/// was and holds what it held.
pub proof fn lemma_cascade_delivered(
    output: Output,
    nodes: Nodes,
    rising: bool,
    state: LogicState,
    budget: nat,
    slot: Slot,
)
    requires
        output.ready(nodes),
        budget >= nodes.pending(),
    ensures
        ({
            let after = output.deliver_within(nodes, rising, state, budget);
            match output.delivered_within(nodes, rising, state, budget, slot) {
                Some(level) => {
                    &&& nodes.has(slot)
                    &&& !nodes.driven(slot)
                    &&& after.input(slot) == nodes.arriving(slot, rising, level)
                },
                None => {
                    &&& after.driven(slot) == nodes.driven(slot)
                    &&& nodes.has(slot) ==> after.input(slot) == nodes.input(slot)
                },
            }
        }),
    decreases budget, output,
{
    let after = output.deliver_within(nodes, rising, state, budget);
    lemma_cascade(output, nodes, rising, state, budget);
    lemma_cascade_follows(output, nodes, rising, state, budget);
    lemma_cascade_deliveries(output, nodes, rising, state, budget, slot);
    match output {
        Output::Register(index) => {
            let target = Slot::Register(index);
            assert(output.fanin(target) + nodes.potential(target) <= 1);
            assert(!nodes.driven(target));
            assert(after.driven(slot) == (nodes.driven(slot) || slot == target));
        },
        Output::Gate(index, right) => {
            let target = Slot::Gate(index, right);
            assert(output.fanin(target) + nodes.potential(target) <= 1);
            assert(!nodes.driven(target));
            let fed = nodes.feed(index, right, state);
            assert(fed.driven(slot) == (nodes.driven(slot) || slot == target)) by {
                match slot {
                    Slot::Register(_) => {},
                    Slot::Gate(other, side) => {
                        if other != index && other < nodes.gates.len() {
                            assert(fed.gates[other as int] == nodes.gates[other as int]);
                        }
                    },
                }
            }
            assert(slot != target && nodes.has(slot) ==> fed.input(slot) == nodes.input(slot)) by {
                match slot {
                    Slot::Register(_) => {},
                    Slot::Gate(other, side) => {
                        if other != index && other < nodes.gates.len() {
                            assert(fed.gates[other as int] == nodes.gates[other as int]);
                        }
                    },
                }
            }
            if fed.gates[index as int].both_driven() {
                lemma_completion(nodes, index, right, state);
                let settled = fed.settle(index);
                let wiring = settled.gates[index as int].output;
                let level = settled.gates[index as int].state;
                lemma_cascade_delivered(wiring, settled, rising, level, (budget - 1) as nat, slot);
                lemma_cascade_follows(wiring, settled, rising, level, (budget - 1) as nat);
                assert(settled.driven(slot) == fed.driven(slot) && (nodes.has(slot)
                    ==> settled.input(slot) == fed.input(slot))) by {
                    match slot {
                        Slot::Register(_) => {},
                        Slot::Gate(other, side) => {
                            if other != index && other < nodes.gates.len() {
                                assert(settled.gates[other as int] == fed.gates[other as int]);
                            }
                        },
                    }
                }
                lemma_stays_driven(settled, after, slot);
            }
        },
        Output::Splitter(left, right) => {
            lemma_left_branch(*left, *right, nodes);
            lemma_cascade(*left, nodes, rising, state, budget);
            let middle = left.deliver_within(nodes, rising, state, budget);
            lemma_right_branch(*left, *right, nodes, middle);
            lemma_cascade_delivered(*left, nodes, rising, state, budget, slot);
            lemma_cascade_delivered(*right, middle, rising, state, budget, slot);
            lemma_cascade_follows(*left, nodes, rising, state, budget);
            lemma_cascade_follows(*right, middle, rising, state, budget);
            lemma_cascade_deliveries(*left, nodes, rising, state, budget, slot);
            lemma_cascade_deliveries(*right, middle, rising, state, budget, slot);
            lemma_stays_driven(nodes, middle, slot);
            lemma_stays_driven(middle, after, slot);
        },
    }
}

} // verus!
