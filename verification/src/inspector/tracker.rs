//! Trackers: the observation points and what has been sampled at them.

use vstd::prelude::*;
use crate::logic::gate::Gate;
use crate::logic::logic::LogicState;
use crate::logic::nodes::Nodes;
use crate::logic::register::Register;
use crate::logic::value::ValueState;

verus! {

/// An observation point: the level that a register has latched, or the
/// level at one input of a gate (`true` names the right one).
#[derive(Copy, Clone, Debug, PartialEq, Eq, Structural)]
pub enum LabelSource {
    Register(usize),
    Gate(usize, bool),
}

impl LabelSource {
    /// Whether the node that is observed exists in a network of that many
    /// registers and gates.
    pub open spec fn in_bounds(self, registers: nat, gates: nat) -> bool {
        match self {
            LabelSource::Register(index) => index < registers,
            LabelSource::Gate(index, _) => index < gates,
        }
    }

    /// The level at the observation point.
    pub open spec fn observe(self, nodes: Nodes) -> LogicState
        recommends
            self.in_bounds(nodes.registers.len(), nodes.gates.len()),
    {
        match self {
            LabelSource::Register(index) => nodes.registers[index as int].state,
            LabelSource::Gate(index, right) => nodes.gates[index as int].input(right).state,
        }
    }

    /// Whether the node that is observed exists in a network of that many
    /// registers and gates.
    pub fn exists_in(&self, registers: usize, gates: usize) -> (result: bool)
        ensures
            result == self.in_bounds(registers as nat, gates as nat),
    {
        match self {
            LabelSource::Register(index) => *index < registers,
            LabelSource::Gate(index, _) => *index < gates,
        }
    }

    pub fn get_state(&self, registers: &Vec<Register>, gates: &Vec<Gate>) -> (result: LogicState)
        requires
            self.in_bounds(registers@.len(), gates@.len()),
        ensures
            result == self.observe((Nodes { registers: registers@, gates: gates@ })),
    {
        match self {
            LabelSource::Register(index) => registers[*index].state,
            LabelSource::Gate(index, right) => {
                if *right {
                    gates[*index].right_input.state
                } else {
                    gates[*index].left_input.state
                }
            },
        }
    }
}

/// The history of one bit: an observation point and the levels sampled at
/// it, oldest first.
#[derive(Debug)]
pub struct LogicTracker {
    pub source: LabelSource,
    pub states: Vec<LogicState>,
}

/// A bit history as plain values.
pub struct LogicTrace {
    pub source: LabelSource,
    pub states: Seq<LogicState>,
}

impl View for LogicTracker {
    type V = LogicTrace;

    open spec fn view(&self) -> LogicTrace {
        LogicTrace { source: self.source, states: self.states@ }
    }
}

impl LogicTrace {
    /// The history with the level that the observation point shows in
    /// `nodes` appended.
    pub open spec fn sample(self, nodes: Nodes) -> LogicTrace {
        LogicTrace { states: self.states.push(self.source.observe(nodes)), ..self }
    }
}

impl LogicTracker {
    pub fn new(source: LabelSource) -> (result: Self)
        ensures
            result@ == (LogicTrace { source: source, states: Seq::empty() }),
    {
        Self { source: source, states: Vec::new() }
    }
}

/// A bit tracker, by its short name.
pub type Tracker = LogicTracker;

/// The history of a multi-bit value: the bit trackers it is made of, by
/// index and most significant first, and the values derived, oldest first.
#[derive(Debug)]
pub struct ValueTracker {
    pub trackers: Vec<usize>,
    pub states: Vec<ValueState>,
}

/// A value history as plain values.
pub struct ValueTrace {
    pub trackers: Seq<usize>,
    pub states: Seq<ValueState>,
}

impl View for ValueTracker {
    type V = ValueTrace;

    open spec fn view(&self) -> ValueTrace {
        ValueTrace { trackers: self.trackers@, states: self.states@ }
    }
}

impl ValueTracker {
    pub fn new(trackers: Vec<usize>) -> (result: Self)
        ensures
            result@ == (ValueTrace { trackers: trackers@, states: Seq::empty() }),
    {
        Self { trackers: trackers, states: Vec::new() }
    }
}

/// The number that binary levels spell, most significant first: a high
/// level is a one, any other level a zero.
pub open spec fn number(bits: Seq<LogicState>) -> nat
    decreases bits.len(),
{
    if bits.len() == 0 {
        0
    } else {
        2 * number(bits.drop_last()) + if bits.last() == LogicState::High {
            1nat
        } else {
            0nat
        }
    }
}

/// The first level, from the most significant end, that is not binary.
pub open spec fn first_unstable(bits: Seq<LogicState>) -> Option<LogicState>
    decreases bits.len(),
{
    if bits.len() == 0 {
        None
    } else {
        match first_unstable(bits.drop_last()) {
            Some(state) => Some(state),
            None => if bits.last().is_binary() {
                None
            } else {
                Some(bits.last())
            },
        }
    }
}

/// What a group of bits amounts to, most significant first. If every bit is
/// binary, it is the number they spell, of which a 64-bit value keeps the
/// lowest 64 bits. Else the first bit that is not binary decides between
/// metastable and floating.
pub open spec fn reading(bits: Seq<LogicState>) -> ValueState {
    match first_unstable(bits) {
        None => ValueState::Stable((number(bits) % 0x1_0000_0000_0000_0000) as u64),
        Some(LogicState::Metastable) => ValueState::Metastable,
        Some(_) => ValueState::Floating,
    }
}

impl ValueTrace {
    /// Whether every bit tracker named exists among `count` of them.
    pub open spec fn in_bounds(self, count: nat) -> bool {
        forall|position: int|
            0 <= position < self.trackers.len() ==> (#[trigger] self.trackers[position]) < count
    }

    /// The latest sample of each bit tracker named, most significant first.
    pub open spec fn latest(self, logic: Seq<LogicTrace>) -> Seq<LogicState> {
        Seq::new(
            self.trackers.len(),
            |position: int| logic[self.trackers[position] as int].states.last(),
        )
    }

    /// The history with the value that the latest samples amount to
    /// appended.
    pub open spec fn derive(self, logic: Seq<LogicTrace>) -> ValueTrace {
        ValueTrace { states: self.states.push(reading(self.latest(logic))), ..self }
    }
}

} // verus!
