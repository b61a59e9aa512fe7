//! What holds of the simulator, whatever the network and the values.

use vstd::prelude::*;
use crate::engine::network::{drive_constants, drive_registers, rising_ticks, Network};
use crate::engine::CoreState;
use crate::logic::cascade::{
    lemma_cascade, lemma_cascade_arrives, lemma_cascade_evaluations, lemma_completion,
    lemma_pending_bound,
};
use crate::logic::logic::LogicState;
use crate::logic::order::{lemma_deliveries_commute, lemma_ready_for_each};
use crate::logic::nodes::Nodes;
use crate::logic::operator::Operator;
use crate::logic::output::{Output, Slot};
use crate::topology::loops::{closed, lemma_long_chain_closes, lemma_loop_carries};

verus! {

/// On binary levels a gate computes its operator's truth table: AND gives
/// high for two high levels only, OR gives low for two low levels only, and
/// XOR gives high for two levels that differ.
pub proof fn truth_table(left: LogicState, right: LogicState, operator: Operator)
    requires
        left.is_binary(),
        right.is_binary(),
    ensures
        left.combine(right, operator) == match operator {
            Operator::And => if left == LogicState::High && right == LogicState::High {
                LogicState::High
            } else {
                LogicState::Low
            },
            Operator::Or => if left == LogicState::Low && right == LogicState::Low {
                LogicState::Low
            } else {
                LogicState::High
            },
            Operator::Xor => if left == right {
                LogicState::Low
            } else {
                LogicState::High
            },
        },
{
}

/// A floating operand makes the result floating, on either side, whatever
/// the other operand and the operator are.
pub proof fn floating_dominates(other: LogicState, operator: Operator)
    ensures
        LogicState::Floating.combine(other, operator) == LogicState::Floating,
        other.combine(LogicState::Floating, operator) == LogicState::Floating,
{
}

/// A metastable operand makes the result metastable, on either side,
/// whatever the operator is, unless the other operand is floating.
pub proof fn metastable_dominates(other: LogicState, operator: Operator)
    requires
        other != LogicState::Floating,
    ensures
        LogicState::Metastable.combine(other, operator) == LogicState::Metastable,
        other.combine(LogicState::Metastable, operator) == LogicState::Metastable,
{
}

/// The hazard rule. Where a value is driven into wiring of which an end
/// arrives at a register, in a network that is ready for it, the register
/// captures at the start of the next tick a metastable level if the tick
/// is of the register's own phase, and the delivered level if it is not.
pub proof fn hazard_rule(output: Output, nodes: Nodes, rising: bool, state: LogicState, index: usize)
    requires
        output.ready(nodes),
        output.fanin(Slot::Register(index)) >= 1,
    ensures
        output.deliver(nodes, rising, state).registers[index as int].captured().state == if rising
            == nodes.registers[index as int].rising {
            LogicState::Metastable
        } else {
            state
        },
{
    lemma_pending_bound(nodes.gates, nodes.gates.len());
    lemma_cascade_arrives(output, nodes, rising, state, nodes.gates.len(), Slot::Register(index));
}

/// The hazard rule over two ticks. In a valid network, a register that is
/// driven in a tick of its own phase has latched a metastable level after
/// the tick that follows, whatever the phase of that one.
pub proof fn same_edge_capture(network: Network, rising: bool, next: bool, index: int)
    requires
        network.valid(),
        0 <= index < network.registers.len(),
        network.registers[index].rising == rising,
        network.tick(rising).registers[index].input.updated,
    ensures
        network.tick(rising).tick(next).registers[index].state == LogicState::Metastable,
{
    network.lemma_registers_settle(rising, network.registers.len(), 0);
    network.lemma_tick_valid(rising);
    let after = network.tick(rising);
    assert(after.nodes() == network.settled(rising));
    assert(after.registers[index].rising == network.captured().registers[index].rising);
    assert(after.registers[index].input.state == LogicState::Metastable);
    after.lemma_registers_settle(next, after.registers.len(), 0);
    after.lemma_tick_valid(next);
    assert(after.tick(next).nodes() == after.settled(next));
    assert(after.settled(next).registers[index].state == after.captured().registers[index].state);
}

/// The hazard rule over two ticks, for every delivery. In a valid network,
/// a register that a level is delivered to in a tick has latched after the
/// tick that follows, whatever the phase of that one, a metastable level if
/// the delivery was on the register's own edge, and the delivered level if
/// it was not.
pub proof fn hazard_rule_over_ticks(
    network: Network,
    rising: bool,
    next: bool,
    index: usize,
    level: LogicState,
)
    requires
        network.valid(),
        index < network.registers.len(),
        network.delivered(rising, Slot::Register(index)) == Some(level),
    ensures
        network.tick(rising).tick(next).registers[index as int].state == if rising
            == network.registers[index as int].rising {
            LogicState::Metastable
        } else {
            level
        },
{
    network.lemma_register_after(rising, index);
    network.lemma_tick_valid(rising);
    registers_show_what_they_captured(network.tick(rising), next, index as int);
}

/// Every node after a tick, in closed form. In a valid network, a register
/// has latched after a tick the level that was at its input, and its input
/// holds the level delivered to it in the tick, as the hazard rule has it,
/// or else the level it held, not driven. A gate holds at each input the
/// level delivered to it, or else the level it held, not driven, and shows
/// what its operator makes of the two levels if both inputs got one, or
/// else what it showed. The wiring, the phases, the operators and the
/// constants are as they were.
pub proof fn every_node_after_a_tick(network: Network, rising: bool, index: usize)
    requires
        network.valid(),
    ensures
        network.tick(rising).constants == network.constants,
        network.tick(rising).registers.len() == network.registers.len(),
        network.tick(rising).gates.len() == network.gates.len(),
        index < network.registers.len() ==> network.tick(rising).registers[index as int]
            == network.register_after(rising, index),
        index < network.gates.len() ==> network.tick(rising).gates[index as int]
            == network.gate_after(rising, index),
{
    network.lemma_tick_valid(rising);
    if index < network.registers.len() {
        network.lemma_register_after(rising, index);
    }
    if index < network.gates.len() {
        network.lemma_gate_after(rising, index);
    }
}

/// A cell that is not driven in a tick keeps its level. In a valid network,
/// a cell that no level is delivered to in a tick holds after the tick the
/// level it held before, and does not count as driven.
pub proof fn undriven_cells_keep_their_level(network: Network, rising: bool, slot: Slot)
    requires
        network.valid(),
        network.nodes().has(slot),
        network.delivered(rising, slot) is None,
    ensures
        network.tick(rising).nodes().input(slot) == network.nodes().input(slot).cleared(),
        network.deliveries(rising, slot) == 0,
{
    match slot {
        Slot::Register(index) => {
            network.lemma_register_after(rising, index);
        },
        Slot::Gate(index, right) => {
            network.lemma_gate_after(rising, index);
        },
    }
}

/// A splitter reaches both of its branches, in either order. Where a value
/// is driven into a splitter, in a network that is ready for it, every cell
/// that an end of either branch arrives at holds the delivered level
/// afterwards (a register's input as the hazard rule has it), and so it
/// does where the two branches change places.
pub proof fn splitter_reaches_both(
    left: Output,
    right: Output,
    nodes: Nodes,
    rising: bool,
    state: LogicState,
    slot: Slot,
)
    requires
        Output::Splitter(Box::new(left), Box::new(right)).ready(nodes),
        left.fanin(slot) >= 1 || right.fanin(slot) >= 1,
    ensures
        Output::Splitter(Box::new(left), Box::new(right)).deliver(nodes, rising, state).input(slot)
            == nodes.arriving(slot, rising, state),
        Output::Splitter(Box::new(right), Box::new(left)).ready(nodes),
        Output::Splitter(Box::new(right), Box::new(left)).deliver(nodes, rising, state).input(slot)
            == nodes.arriving(slot, rising, state),
{
    let straight = Output::Splitter(Box::new(left), Box::new(right));
    let swapped = Output::Splitter(Box::new(right), Box::new(left));
    assert(swapped.ready(nodes)) by {
        assert forall|slot: Slot| swapped.fanin(slot) + #[trigger] nodes.potential(slot) <= 1 by {
            assert(straight.fanin(slot) + nodes.potential(slot) <= 1);
        }
    }
    lemma_pending_bound(nodes.gates, nodes.gates.len());
    lemma_cascade_arrives(straight, nodes, rising, state, nodes.gates.len(), slot);
    lemma_cascade_arrives(swapped, nodes, rising, state, nodes.gates.len(), slot);
}

/// The order of the branches of a splitter is immaterial. In a network that
/// is ready for it, a splitter leaves the nodes as the splitter with the two
/// branches in each other's place leaves them, down to the last cell that
/// the cascade reaches.
pub proof fn splitter_order_is_immaterial(
    left: Output,
    right: Output,
    nodes: Nodes,
    rising: bool,
    state: LogicState,
)
    requires
        Output::Splitter(Box::new(left), Box::new(right)).ready(nodes),
    ensures
        Output::Splitter(Box::new(left), Box::new(right)).deliver(nodes, rising, state)
            == Output::Splitter(Box::new(right), Box::new(left)).deliver(nodes, rising, state),
{
    let count = nodes.gates.len();
    lemma_pending_bound(nodes.gates, count);
    lemma_ready_for_each(left, right, nodes);
    lemma_cascade(left, nodes, rising, state, count);
    lemma_cascade(right, nodes, rising, state, count);
    lemma_deliveries_commute(left, state, right, state, nodes, rising);
}

/// The order of two deliveries is immaterial. In a network that is ready
/// for both, a level driven into one wiring and then a level driven into
/// another leave the nodes as the two deliveries leave them the other way
/// round.
pub proof fn delivery_order_is_immaterial(
    first: Output,
    level: LogicState,
    second: Output,
    other: LogicState,
    nodes: Nodes,
    rising: bool,
)
    requires
        Output::Splitter(Box::new(first), Box::new(second)).ready(nodes),
    ensures
        second.deliver(first.deliver(nodes, rising, level), rising, other) == first.deliver(
            second.deliver(nodes, rising, other),
            rising,
            level,
        ),
{
    lemma_deliveries_commute(first, level, second, other, nodes, rising);
}

/// The order of the sources of a tick is immaterial. In a valid network,
/// the nodes settle as they do if the registers that are active drive
/// first and the constants after them.
pub proof fn sources_in_either_order(network: Network, rising: bool)
    requires
        network.valid(),
    ensures
        network.settled(rising) == drive_constants(
            network.constants,
            drive_registers(network.captured(), rising, network.registers.len()),
            rising,
            network.constants.len(),
        ),
{
    network.lemma_registers_first(rising, network.registers.len());
}

/// A gate with one input driven is silent. A delivery to one input of a gate
/// whose other input has not been driven in this tick writes that input and
/// does nothing else: no gate evaluates and nothing is driven on.
pub proof fn lone_input_is_silent(
    nodes: Nodes,
    index: usize,
    right: bool,
    rising: bool,
    state: LogicState,
    gate: int,
)
    requires
        index < nodes.gates.len(),
        !nodes.gates[index as int].input(!right).updated,
    ensures
        Output::Gate(index, right).deliver(nodes, rising, state) == nodes.feed(index, right, state),
        Output::Gate(index, right).evaluations(nodes, rising, state, gate) == 0,
{
}

/// The delivery that completes a gate's pair of inputs makes that gate
/// evaluate, once, and drive the result on. Where a value is delivered to
/// one input of a gate whose other input has been driven, in a network that
/// is ready for it, the nodes end up as if the result of the operator on the
/// two levels had been driven into the wiring of that gate right after the
/// evaluation, and that gate has evaluated once on the way.
pub proof fn completion_cascades(
    nodes: Nodes,
    index: usize,
    right: bool,
    rising: bool,
    state: LogicState,
)
    requires
        Output::Gate(index, right).ready(nodes),
        nodes.gates[index as int].input(!right).updated,
    ensures
        ({
            let settled = nodes.feed(index, right, state).settle(index);
            let result = nodes.gates[index as int].fed(right, state).evaluation();
            &&& settled.gates[index as int].state == result
            &&& Output::Gate(index, right).deliver(nodes, rising, state)
                == nodes.gates[index as int].output.deliver(settled, rising, result)
            &&& Output::Gate(index, right).evaluations(nodes, rising, state, index as int) == 1
        }),
{
    let output = Output::Gate(index, right);
    let settled = nodes.feed(index, right, state).settle(index);
    let wiring = nodes.gates[index as int].output;
    let result = settled.gates[index as int].state;
    lemma_pending_bound(nodes.gates, nodes.gates.len());
    lemma_completion(nodes, index, right, state);
    lemma_cascade(wiring, settled, rising, result, nodes.gates.len());
    lemma_cascade(wiring, settled, rising, result, (nodes.gates.len() - 1) as nat);
    lemma_cascade(output, nodes, rising, state, nodes.gates.len());
    lemma_cascade_evaluations(output, nodes, rising, state, nodes.gates.len(), index as int);
    let after = output.deliver(nodes, rising, state);
    crate::logic::cascade::lemma_cascade_follows(
        wiring,
        settled,
        rising,
        result,
        (nodes.gates.len() - 1) as nat,
    );
    assert(after.gates[index as int] == settled.gates[index as int]);
    let target = Slot::Gate(index, right);
    assert(output.fanin(target) + nodes.potential(target) <= 1);
    assert(!nodes.driven(target));
}

/// A tick begins with no cell driven: whatever the network, no cell counts
/// as driven once the registers have captured.
pub proof fn no_cell_is_driven_at_the_start(network: Network, slot: Slot)
    ensures
        !network.captured().driven(slot),
{
}

/// A register shows throughout a tick, and after it, what it captured at its
/// start. In a valid network, the level that a register has latched after a
/// tick is the level that was at its input before the tick.
pub proof fn registers_show_what_they_captured(network: Network, rising: bool, index: int)
    requires
        network.valid(),
        0 <= index < network.registers.len(),
    ensures
        network.tick(rising).registers[index].state == network.registers[index].input.state,
{
    network.lemma_registers_settle(rising, network.registers.len(), 0);
    assert(network.tick(rising).nodes() == network.settled(rising));
    assert(network.settled(rising).registers[index].state
        == network.captured().registers[index].state);
}

/// A cell gets one delivery per tick at most. In a valid network, a cell
/// gets one delivery in a tick if it is driven in that tick, and none if it
/// is not.
pub proof fn one_delivery_per_tick(network: Network, rising: bool, slot: Slot)
    requires
        network.valid(),
    ensures
        network.deliveries(rising, slot) == if network.tick(rising).nodes().driven(slot) {
            1nat
        } else {
            0nat
        },
{
    network.lemma_registers_deliver(rising, network.registers.len(), slot);
    assert(!network.captured().driven(slot));
    assert(network.tick(rising).nodes() == network.settled(rising));
}

/// A gate evaluates once per tick at most. In a valid network, a gate
/// evaluates once in a tick if both of its inputs are driven in that tick,
/// and then it shows what its operator makes of the two levels; else it
/// does not evaluate and shows what it showed before the tick.
pub proof fn one_evaluation_per_tick(network: Network, rising: bool, gate: int)
    requires
        network.valid(),
        0 <= gate < network.gates.len(),
    ensures
        ({
            let after = network.tick(rising).gates[gate];
            if after.both_driven() {
                &&& network.evaluations(rising, gate) == 1
                &&& after.state == after.evaluation()
            } else {
                &&& network.evaluations(rising, gate) == 0
                &&& after.state == network.gates[gate].state
            }
        }),
{
    network.lemma_registers_settle(rising, network.registers.len(), gate);
    assert(!network.captured().gates[gate].both_driven());
}

/// A gate evaluates in a tick if and only if a level is delivered to each
/// of its inputs. In a valid network, both inputs of a gate count as driven
/// after a tick exactly if each got a level in the tick, each gets one
/// delivery then, and the result is what the operator makes of the two
/// levels delivered.
pub proof fn gates_evaluate_what_is_delivered(network: Network, rising: bool, index: usize)
    requires
        network.valid(),
        index < network.gates.len(),
    ensures
        ({
            let left = network.delivered(rising, Slot::Gate(index, false));
            let right = network.delivered(rising, Slot::Gate(index, true));
            let after = network.tick(rising).gates[index as int];
            &&& after.both_driven() <==> left is Some && right is Some
            &&& network.evaluations(rising, index as int) == if left is Some && right is Some {
                1nat
            } else {
                0nat
            }
            &&& left is Some && right is Some ==> after.state == left->0.combine(
                right->0,
                network.gates[index as int].operator,
            )
            &&& !(left is Some && right is Some) ==> after.state == network.gates[index as int].state
        }),
{
    network.lemma_gate_after(rising, index);
}

/// What the loop check looks for. The gates of a network form no
/// combinational loop, as validity has it, if and only if there is no chain
/// of gates, each feeding the next, that ends where it begins.
pub proof fn loop_free_means_no_closed_chain(network: Network)
    ensures
        network.loop_free() <==> forall|path: Seq<int>| !closed(network.gate_wiring(), path),
{
    let wiring = network.gate_wiring();
    if !network.loop_free() {
        let gate = choose|gate: int| network.feeds_loop(gate);
        let path = lemma_long_chain_closes(wiring, gate);
        assert(closed(wiring, path));
    }
    if exists|path: Seq<int>| closed(wiring, path) {
        let path = choose|path: Seq<int>| closed(wiring, path);
        lemma_loop_carries(wiring, path, 0, wiring.len());
        assert(network.feeds_loop(path[0]));
    }
}

/// A tick keeps a valid network valid, and so does any number of ticks.
pub proof fn validity_is_kept(network: Network, phases: Seq<bool>)
    requires
        network.valid(),
    ensures
        network.run(phases).valid(),
    decreases phases.len(),
{
    if phases.len() > 0 {
        validity_is_kept(network, phases.drop_last());
        network.run(phases.drop_last()).lemma_tick_valid(phases.last());
    }
}

/// What holds of networks over any number of ticks holds of cores: the
/// network of a core after ticks of any phases is the network after those
/// ticks, its cycle count has gone up by the number of rising ones among
/// them, and a valid core has stayed valid.
pub proof fn cores_run_as_their_networks(core: CoreState, phases: Seq<bool>)
    ensures
        core.run(phases).network == core.network.run(phases),
        core.run(phases).network.cycle_count == core.network.cycle_count + rising_ticks(phases),
        core.valid() ==> core.run(phases).valid(),
    decreases phases.len(),
{
    cycle_count_counts_rising_ticks(core.network, phases);
    if phases.len() > 0 {
        cores_run_as_their_networks(core, phases.drop_last());
        if core.valid() {
            core.run(phases.drop_last()).lemma_tick_valid(phases.last());
        }
    }
}

/// The cycle count counts the rising ticks: after ticks of any phases in
/// any order it has gone up by the number of rising ones among them.
pub proof fn cycle_count_counts_rising_ticks(network: Network, phases: Seq<bool>)
    ensures
        network.run(phases).cycle_count == network.cycle_count + rising_ticks(phases),
    decreases phases.len(),
{
    if phases.len() > 0 {
        cycle_count_counts_rising_ticks(network, phases.drop_last());
    }
}

} // verus!
