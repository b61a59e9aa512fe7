//! The circuit that every core is loaded with.
//!
//! Two groups of three registers, active on the rising edge, feed three
//! gates: an AND and two XORs. The gates drive a third group of registers,
//! active on the falling edge, and each of those drives one register of the
//! first group as well as an AND gate that joins it with a constant high
//! level and drives a register of the second group.

use vstd::prelude::*;
use super::network::Network;
use crate::inspector::item::Entry;
use crate::inspector::{Formatting, LabelSource, LogicTrace, ValueTrace};
use crate::logic::constant::Constant;
use crate::logic::gate::Gate;
use crate::logic::input::Input;
use crate::logic::logic::LogicState;
use crate::logic::operator::Operator;
use crate::logic::output::{Output, Slot};
use crate::logic::register::Register;
use crate::topology::wiring_fanin;

verus! {

/// A register as it is before the first tick.
pub open spec fn fresh_register(state: LogicState, output: Output, rising: bool) -> Register {
    Register {
        input: Input { state: state, updated: false },
        state: state,
        output: output,
        rising: rising,
    }
}

/// A gate as it is before the first tick.
pub open spec fn fresh_gate(operator: Operator, output: Output) -> Gate {
    Gate {
        operator: operator,
        left_input: Input { state: LogicState::Floating, updated: false },
        right_input: Input { state: LogicState::Floating, updated: false },
        state: LogicState::Floating,
        output: output,
    }
}

/// The wiring of a register of the third group: a register of the first
/// group and the left input of a joining gate.
pub open spec fn feedback(register: usize, gate: usize) -> Output {
    Output::Splitter(Box::new(Output::Register(register)), Box::new(Output::Gate(gate, false)))
}

/// The registers of the circuit.
pub open spec fn fixture_registers() -> Seq<Register> {
    seq![
        fresh_register(LogicState::High, Output::Gate(0, false), true),
        fresh_register(LogicState::Low, Output::Gate(1, false), true),
        fresh_register(LogicState::High, Output::Gate(2, false), true),
        fresh_register(LogicState::High, Output::Gate(0, true), true),
        fresh_register(LogicState::High, Output::Gate(1, true), true),
        fresh_register(LogicState::High, Output::Gate(2, true), true),
        fresh_register(LogicState::Floating, feedback(0, 3), false),
        fresh_register(LogicState::Floating, feedback(1, 4), false),
        fresh_register(LogicState::Floating, feedback(2, 5), false),
    ]
}

/// The gates of the circuit.
pub open spec fn fixture_gates() -> Seq<Gate> {
    seq![
        fresh_gate(Operator::And, Output::Register(6)),
        fresh_gate(Operator::Xor, Output::Register(7)),
        fresh_gate(Operator::Xor, Output::Register(8)),
        fresh_gate(Operator::And, Output::Register(3)),
        fresh_gate(Operator::And, Output::Register(4)),
        fresh_gate(Operator::And, Output::Register(5)),
    ]
}

/// The constants of the circuit.
pub open spec fn fixture_constants() -> Seq<Constant> {
    seq![
        Constant { output: Output::Gate(3, true), state: LogicState::High },
        Constant { output: Output::Gate(4, true), state: LogicState::High },
        Constant { output: Output::Gate(5, true), state: LogicState::High },
    ]
}

/// The circuit before its first tick.
pub open spec fn fixture() -> Network {
    Network {
        gates: fixture_gates(),
        registers: fixture_registers(),
        constants: fixture_constants(),
        cycle_count: 0,
    }
}

/// A bit tracker that has not sampled yet.
pub open spec fn fresh_trace(source: LabelSource) -> LogicTrace {
    LogicTrace { source: source, states: Seq::empty() }
}

/// The bit trackers that the circuit is observed with.
pub open spec fn fixture_trackers() -> Seq<LogicTrace> {
    seq![
        fresh_trace(LabelSource::Gate(0, false)),
        fresh_trace(LabelSource::Gate(1, false)),
        fresh_trace(LabelSource::Gate(2, false)),
        fresh_trace(LabelSource::Gate(0, true)),
        fresh_trace(LabelSource::Gate(1, true)),
        fresh_trace(LabelSource::Gate(2, true)),
        fresh_trace(LabelSource::Register(6)),
        fresh_trace(LabelSource::Register(7)),
        fresh_trace(LabelSource::Register(8)),
        fresh_trace(LabelSource::Register(0)),
        fresh_trace(LabelSource::Register(1)),
        fresh_trace(LabelSource::Register(2)),
        fresh_trace(LabelSource::Register(3)),
        fresh_trace(LabelSource::Register(4)),
        fresh_trace(LabelSource::Register(5)),
    ]
}

/// The value trackers that the circuit is observed with: the left and the
/// right inputs of the first three gates, read as numbers.
pub open spec fn fixture_value_trackers() -> Seq<ValueTrace> {
    seq![
        ValueTrace { trackers: seq![2usize, 1usize, 0usize], states: Seq::empty() },
        ValueTrace { trackers: seq![5usize, 4usize, 3usize], states: Seq::empty() },
    ]
}

/// The entry of a label.
pub open spec fn label(identifier: &'static str, tracker: usize) -> Entry {
    Entry::Label { identifier: identifier, tracker: tracker }
}

/// The entry of an expanded group.
pub open spec fn group(
    identifier: &'static str,
    tracker: Option<(usize, Formatting)>,
    items: Seq<Entry>,
) -> Entry {
    Entry::Group { identifier: identifier, tracker: tracker, items: items, expanded: true }
}

/// The entries under which the histories of the circuit are shown.
pub open spec fn fixture_tree() -> Entry {
    group(
        "core",
        None,
        seq![
            group(
                "input 0",
                Some((0usize, Formatting::Binary)),
                seq![label("register 0", 0), label("register 1", 1), label("register 2", 2)],
            ),
            group(
                "input 1",
                Some((1usize, Formatting::Binary)),
                seq![label("register 0", 3), label("register 1", 4), label("register 2", 5)],
            ),
            group(
                "gates",
                None,
                seq![label("AND gate", 6), label("XOR gate", 7), label("XOR gate", 8)],
            ),
            group(
                "buffer",
                None,
                seq![label("register 0", 9), label("register 1", 1), label("register 2", 1)],
            ),
            group(
                "inverter",
                None,
                seq![label("output 0", 1), label("output 1", 1), label("output 2", 1)],
            ),
        ],
    )
}

/// The circuit is well formed.
pub proof fn lemma_fixture_valid()
    ensures
        fixture().valid(),
{
    let network = fixture();
    assert(network.in_bounds()) by {
        reveal_with_fuel(Output::in_bounds, 2);
        assert(network.constants[0].output.in_bounds(9, 6));
        assert(network.constants[1].output.in_bounds(9, 6));
        assert(network.constants[2].output.in_bounds(9, 6));
        assert(network.registers[0].output.in_bounds(9, 6));
        assert(network.registers[1].output.in_bounds(9, 6));
        assert(network.registers[2].output.in_bounds(9, 6));
        assert(network.registers[3].output.in_bounds(9, 6));
        assert(network.registers[4].output.in_bounds(9, 6));
        assert(network.registers[5].output.in_bounds(9, 6));
        assert(network.registers[6].output.in_bounds(9, 6));
        assert(network.registers[7].output.in_bounds(9, 6));
        assert(network.registers[8].output.in_bounds(9, 6));
        assert(network.gates[0].output.in_bounds(9, 6));
        assert(network.gates[1].output.in_bounds(9, 6));
        assert(network.gates[2].output.in_bounds(9, 6));
        assert(network.gates[3].output.in_bounds(9, 6));
        assert(network.gates[4].output.in_bounds(9, 6));
        assert(network.gates[5].output.in_bounds(9, 6));
    }
    assert(network.loop_free()) by {
        assert forall|index: int| !#[trigger] network.feeds_loop(index) by {
            if 0 <= index < 6 {
                assert(network.gates[index].output is Register);
            }
        }
    }
    assert(network.single_drivers()) by {
        reveal_with_fuel(wiring_fanin, 10);
        assert forall|slot: Slot| #[trigger] network.fanin(slot) <= 1 by {
            let constants = network.constant_wiring();
            let registers = network.register_wiring();
            let gates = network.gate_wiring();
            assert(wiring_fanin(constants, slot, 3) == constants[0].fanin(slot) + constants[1].fanin(
                slot,
            ) + constants[2].fanin(slot));
            assert(wiring_fanin(gates, slot, 6) == gates[0].fanin(slot) + gates[1].fanin(slot)
                + gates[2].fanin(slot) + gates[3].fanin(slot) + gates[4].fanin(slot)
                + gates[5].fanin(slot));
            assert(wiring_fanin(registers, slot, 9) == registers[0].fanin(slot)
                + registers[1].fanin(slot) + registers[2].fanin(slot) + registers[3].fanin(slot)
                + registers[4].fanin(slot) + registers[5].fanin(slot) + registers[6].fanin(slot)
                + registers[7].fanin(slot) + registers[8].fanin(slot));
            assert(registers[6].fanin(slot) == Output::Register(0).fanin(slot) + Output::Gate(
                3,
                false,
            ).fanin(slot));
            assert(registers[7].fanin(slot) == Output::Register(1).fanin(slot) + Output::Gate(
                4,
                false,
            ).fanin(slot));
            assert(registers[8].fanin(slot) == Output::Register(2).fanin(slot) + Output::Gate(
                5,
                false,
            ).fanin(slot));
        }
    }
}

} // verus!
