//! The state recorder: per-bit histories and the multi-bit values derived
//! from them.

pub mod display;
pub mod item;
pub mod tracker;

pub use self::item::{Formatting, Group, InspectorItem, Label};
pub use self::tracker::{
    LabelSource, LogicTrace, LogicTracker, Tracker, ValueTrace, ValueTracker,
};

use vstd::prelude::*;
use self::tracker::{first_unstable, number, reading};
use crate::logic::gate::Gate;
use crate::logic::logic::LogicState;
use crate::logic::nodes::Nodes;
use crate::logic::register::Register;
use crate::logic::value::ValueState;
use crate::topology::{
    first_some, lemma_first_some_found, lemma_first_some_missing, lemma_first_some_nowhere,
    lemma_first_some_place, TopologyError,
};
use crate::types::key::Key;

verus! {

/// The recorder: bit trackers, the value trackers derived from them, and the
/// tree of entries they are shown under.
#[derive(Debug)]
pub struct Inspector {
    show_trackers: bool,
    root_item: InspectorItem,
    logic_trackers: Vec<LogicTracker>,
    value_trackers: Vec<ValueTracker>,
}

/// What a recorder holds, as plain values.
pub struct Recording {
    pub show_trackers: bool,
    pub root_item: InspectorItem,
    pub logic: Seq<LogicTrace>,
    pub values: Seq<ValueTrace>,
}

impl View for Inspector {
    type V = Recording;

    closed spec fn view(&self) -> Recording {
        Recording {
            show_trackers: self.show_trackers,
            root_item: self.root_item,
            logic: Seq::new(self.logic_trackers@.len(), |index: int| self.logic_trackers@[index]@),
            values: Seq::new(self.value_trackers@.len(), |index: int| self.value_trackers@[index]@),
        }
    }
}

impl Recording {
    /// Whether the first `count` bit trackers observe nodes that exist in a
    /// network of that many registers and gates.
    pub open spec fn probes_fit(self, registers: nat, gates: nat, count: int) -> bool {
        forall|index: int|
            0 <= index < count && index < self.logic.len() ==> (
            #[trigger] self.logic[index]).source.in_bounds(registers, gates)
    }

    /// Whether the first `count` value trackers name bit trackers that
    /// exist.
    pub open spec fn values_fit(self, count: int) -> bool {
        forall|index: int|
            0 <= index < count && index < self.values.len() ==> (
            #[trigger] self.values[index]).in_bounds(self.logic.len())
    }

    /// Whether the recorder fits a network of that many registers and
    /// gates: every observation point exists there, and every value tracker
    /// names bit trackers that exist.
    pub open spec fn fits(self, registers: nat, gates: nat) -> bool {
        &&& self.probes_fit(registers, gates, self.logic.len() as int)
        &&& self.values_fit(self.values.len() as int)
    }

    /// For each bit tracker the error that names it if its observation point
    /// does not exist in a network of that many registers and gates.
    pub open spec fn stray_probes(self, registers: nat, gates: nat) -> Seq<Option<TopologyError>> {
        Seq::new(
            self.logic.len(),
            |index: int|
                if self.logic[index].source.in_bounds(registers, gates) {
                    None
                } else {
                    Some(TopologyError::DanglingTracker(index as usize))
                },
        )
    }

    /// For each value tracker the error that names it if it names a bit
    /// tracker that does not exist.
    pub open spec fn stray_values(self) -> Seq<Option<TopologyError>> {
        Seq::new(
            self.values.len(),
            |index: int|
                if self.values[index].in_bounds(self.logic.len()) {
                    None
                } else {
                    Some(TopologyError::DanglingValueTracker(index as usize))
                },
        )
    }

    /// What keeps the recorder from fitting a network of that many
    /// registers and gates, if anything does: the first bit tracker whose
    /// observation point is missing; else the first value tracker that
    /// names a missing bit tracker.
    pub open spec fn defect(self, registers: nat, gates: nat) -> Option<TopologyError> {
        match first_some(self.stray_probes(registers, gates), self.logic.len()) {
            Some(error) => Some(error),
            None => first_some(self.stray_values(), self.values.len()),
        }
    }

    /// A recorder fits if and only if it has no defect, and a defect says
    /// of the recorder what its name says.
    pub proof fn lemma_defect(self, registers: nat, gates: nat)
        requires
            self.logic.len() <= usize::MAX,
            self.values.len() <= usize::MAX,
        ensures
            self.defect(registers, gates) is None <==> self.fits(registers, gates),
            self.defect(registers, gates) matches Some(error) ==> self.misfit(
                registers,
                gates,
                error,
            ),
    {
        let probes = self.stray_probes(registers, gates);
        let values = self.stray_values();
        if first_some(probes, self.logic.len()) is Some {
            let index = lemma_first_some_place(probes, self.logic.len());
            assert forall|earlier: int| 0 <= earlier < index implies (
            #[trigger] self.logic[earlier]).source.in_bounds(registers, gates) by {
                assert(probes[earlier] is None);
            }
        } else {
            lemma_first_some_nowhere(probes, self.logic.len());
            assert forall|index: int| 0 <= index < self.logic.len() implies (
            #[trigger] self.logic[index]).source.in_bounds(registers, gates) by {
                assert(probes[index] is None);
            }
            if first_some(values, self.values.len()) is Some {
                let index = lemma_first_some_place(values, self.values.len());
                assert forall|earlier: int| 0 <= earlier < index implies (
                #[trigger] self.values[earlier]).in_bounds(self.logic.len()) by {
                    assert(values[earlier] is None);
                }
            } else {
                lemma_first_some_nowhere(values, self.values.len());
                assert forall|index: int| 0 <= index < self.values.len() implies (
                #[trigger] self.values[index]).in_bounds(self.logic.len()) by {
                    assert(values[index] is None);
                }
            }
        }
    }

    /// Whether `error` names the reason why the recorder does not fit a
    /// network of that many registers and gates: the first bit tracker
    /// whose observation point is missing or, where there is none, the
    /// first value tracker that names a missing bit tracker.
    pub open spec fn misfit(self, registers: nat, gates: nat, error: TopologyError) -> bool {
        match error {
            TopologyError::DanglingTracker(tracker) => {
                &&& tracker < self.logic.len()
                &&& !self.logic[tracker as int].source.in_bounds(registers, gates)
                &&& self.probes_fit(registers, gates, tracker as int)
            },
            TopologyError::DanglingValueTracker(tracker) => {
                &&& self.probes_fit(registers, gates, self.logic.len() as int)
                &&& tracker < self.values.len()
                &&& !self.values[tracker as int].in_bounds(self.logic.len())
                &&& self.values_fit(tracker as int)
            },
            _ => false,
        }
    }

    /// The bit histories after one more sample of `nodes`.
    pub open spec fn sampled(self, nodes: Nodes) -> Seq<LogicTrace> {
        Seq::new(self.logic.len(), |index: int| self.logic[index].sample(nodes))
    }

    /// The recording after one more sample set of `nodes`: every bit tracker
    /// has appended the level at its observation point, and every value
    /// tracker the value that the new samples of its bits amount to.
    pub open spec fn record(self, nodes: Nodes) -> Recording {
        let logic = self.sampled(nodes);
        Recording {
            logic: logic,
            values: Seq::new(self.values.len(), |index: int| self.values[index].derive(logic)),
            ..self
        }
    }

    /// The recording after the given key has been pressed: the letter T
    /// switches the display of the histories on and off.
    pub open spec fn key_pressed(self, key: Key) -> Recording {
        if key == Key::T {
            Recording { show_trackers: !self.show_trackers, ..self }
        } else {
            self
        }
    }
}

/// While all levels before a position are binary, the first that is not is
/// the first unstable one.
pub proof fn lemma_first_unstable(bits: Seq<LogicState>, position: int)
    requires
        0 <= position <= bits.len(),
        forall|earlier: int| 0 <= earlier < position ==> (#[trigger] bits[earlier]).is_binary(),
        position < bits.len() ==> !bits[position].is_binary(),
    ensures
        first_unstable(bits) == if position < bits.len() {
            Some(bits[position])
        } else {
            None
        },
    decreases bits.len(),
{
    if bits.len() > 0 {
        let front = bits.drop_last();
        if position < front.len() {
            lemma_first_unstable(front, position);
        } else {
            lemma_first_unstable(front, front.len() as int);
        }
    }
}

/// Doubling a number, and adding a bit, can be done on its lowest 64 bits.
pub proof fn lemma_shift_in(total: nat, bit: nat)
    requires
        bit <= 1,
    ensures
        (2 * (total % 0x1_0000_0000_0000_0000) + bit) % 0x1_0000_0000_0000_0000 == (2 * total + bit)
            % 0x1_0000_0000_0000_0000,
{
    assert((2 * (total % 0x1_0000_0000_0000_0000) + bit) % 0x1_0000_0000_0000_0000 == (2 * total
        + bit) % 0x1_0000_0000_0000_0000) by (nonlinear_arith);
}

impl Inspector {
    /// A recorder has no more trackers than can be counted.
    pub proof fn lemma_sizes(&self)
        ensures
            self@.logic.len() <= usize::MAX,
            self@.values.len() <= usize::MAX,
    {
        assert(self.logic_trackers@.len() == self.logic_trackers.len());
        assert(self.value_trackers@.len() == self.value_trackers.len());
    }

    /// A recorder with empty or earlier histories. The histories are shown
    /// to begin with.
    pub fn new(
        logic_trackers: Vec<LogicTracker>,
        value_trackers: Vec<ValueTracker>,
        root_item: InspectorItem,
    ) -> (result: Self)
        ensures
            result@ == (Recording {
                show_trackers: true,
                root_item: root_item,
                logic: Seq::new(logic_trackers@.len(), |index: int| logic_trackers@[index]@),
                values: Seq::new(value_trackers@.len(), |index: int| value_trackers@[index]@),
            }),
    {
        Self {
            show_trackers: true,
            root_item: root_item,
            logic_trackers: logic_trackers,
            value_trackers: value_trackers,
        }
    }

    pub fn handle_key_input(&mut self, key: Key)
        ensures
            final(self)@ == old(self)@.key_pressed(key),
    {
        if key == Key::T {
            self.show_trackers = !self.show_trackers;
        }
    }

    /// Whether the histories are shown.
    pub fn show_trackers(&self) -> (result: bool)
        ensures
            result == self@.show_trackers,
    {
        self.show_trackers
    }

    /// The tree of entries.
    pub fn root_item(&self) -> (result: &InspectorItem)
        ensures
            *result == self@.root_item,
    {
        &self.root_item
    }

    /// How many bit trackers there are.
    pub fn logic_tracker_count(&self) -> (result: usize)
        ensures
            result == self@.logic.len(),
    {
        self.logic_trackers.len()
    }

    /// How many value trackers there are.
    pub fn value_tracker_count(&self) -> (result: usize)
        ensures
            result == self@.values.len(),
    {
        self.value_trackers.len()
    }

    /// The latest sample of a bit tracker, if the tracker exists and has
    /// been sampled.
    pub fn latest_state(&self, tracker_index: usize) -> (result: Option<LogicState>)
        ensures
            result == if tracker_index < self@.logic.len() && self@.logic[tracker_index as int].states.len()
                > 0 {
                Some(self@.logic[tracker_index as int].states.last())
            } else {
                None
            },
    {
        if tracker_index < self.logic_trackers.len() {
            let states = &self.logic_trackers[tracker_index].states;
            if states.len() > 0 {
                return Some(states[states.len() - 1]);
            }
        }
        None
    }

    /// The latest value of a value tracker, if the tracker exists and has
    /// derived one.
    pub fn latest_value(&self, value_tracker_index: usize) -> (result: Option<ValueState>)
        ensures
            result == if value_tracker_index < self@.values.len()
                && self@.values[value_tracker_index as int].states.len() > 0 {
                Some(self@.values[value_tracker_index as int].states.last())
            } else {
                None
            },
    {
        if value_tracker_index < self.value_trackers.len() {
            let states = &self.value_trackers[value_tracker_index].states;
            if states.len() > 0 {
                return Some(states[states.len() - 1]);
            }
        }
        None
    }

    /// The samples of a bit tracker, oldest first, if the tracker exists.
    pub fn history(&self, tracker_index: usize) -> (result: Option<&Vec<LogicState>>)
        ensures
            match result {
                Some(states) => tracker_index < self@.logic.len() && states@
                    == self@.logic[tracker_index as int].states,
                None => tracker_index >= self@.logic.len(),
            },
    {
        if tracker_index < self.logic_trackers.len() {
            Some(&self.logic_trackers[tracker_index].states)
        } else {
            None
        }
    }

    /// The values of a value tracker, oldest first, and how many bits it is
    /// made of, if the tracker exists.
    pub fn value_history(&self, value_tracker_index: usize) -> (result: Option<
        (&Vec<ValueState>, usize),
    >)
        ensures
            match result {
                Some((states, width)) => value_tracker_index < self@.values.len() && states@
                    == self@.values[value_tracker_index as int].states && width
                    == self@.values[value_tracker_index as int].trackers.len(),
                None => value_tracker_index >= self@.values.len(),
            },
    {
        if value_tracker_index < self.value_trackers.len() {
            Some(
                (
                    &self.value_trackers[value_tracker_index].states,
                    self.value_trackers[value_tracker_index].trackers.len(),
                ),
            )
        } else {
            None
        }
    }

    /// What keeps the recorder from fitting a network of that many
    /// registers and gates, if anything does.
    pub fn check(&self, registers: usize, gates: usize) -> (result: Option<TopologyError>)
        ensures
            result == self@.defect(registers as nat, gates as nat),
    {
        let ghost probes = self@.stray_probes(registers as nat, gates as nat);
        let ghost values = self@.stray_values();
        let logic_count = self.logic_trackers.len();
        let mut index: usize = 0;
        while index < logic_count
            invariant
                index <= logic_count,
                logic_count == self@.logic.len(),
                probes == self@.stray_probes(registers as nat, gates as nat),
                forall|earlier: int| 0 <= earlier < index ==> (#[trigger] probes[earlier]) is None,
            decreases logic_count - index,
        {
            assert(self@.logic[index as int].source == self.logic_trackers@[index as int].source);
            if !self.logic_trackers[index].source.exists_in(registers, gates) {
                proof {
                    lemma_first_some_found(probes, index as int, logic_count as nat);
                }
                return Some(TopologyError::DanglingTracker(index));
            }
            index += 1;
        }
        proof {
            lemma_first_some_missing(probes, logic_count as nat);
        }
        let value_count = self.value_trackers.len();
        let mut index: usize = 0;
        while index < value_count
            invariant
                index <= value_count,
                value_count == self@.values.len(),
                logic_count == self@.logic.len(),
                values == self@.stray_values(),
                probes == self@.stray_probes(registers as nat, gates as nat),
                first_some(probes, logic_count as nat) is None,
                forall|earlier: int| 0 <= earlier < index ==> (#[trigger] values[earlier]) is None,
            decreases value_count - index,
        {
            let trackers = &self.value_trackers[index].trackers;
            assert(trackers@ == self@.values[index as int].trackers);
            let mut position: usize = 0;
            while position < trackers.len()
                invariant
                    position <= trackers.len(),
                    index < value_count,
                    value_count == self@.values.len(),
                    logic_count == self@.logic.len(),
                    trackers@ == self@.values[index as int].trackers,
                    values == self@.stray_values(),
                    probes == self@.stray_probes(registers as nat, gates as nat),
                    first_some(probes, logic_count as nat) is None,
                    forall|earlier: int|
                        0 <= earlier < index ==> (#[trigger] values[earlier]) is None,
                    forall|earlier: int|
                        0 <= earlier < position ==> (#[trigger] trackers@[earlier]) < logic_count,
                decreases trackers.len() - position,
            {
                if trackers[position] >= logic_count {
                    proof {
                        assert(self@.values[index as int].trackers[position as int] >= logic_count);
                        lemma_first_some_found(values, index as int, value_count as nat);
                    }
                    return Some(TopologyError::DanglingValueTracker(index));
                }
                position += 1;
            }
            assert(self@.values[index as int].in_bounds(self@.logic.len()));
            index += 1;
        }
        proof {
            lemma_first_some_missing(values, value_count as nat);
        }
        None
    }

    /// Appends one sample set: to every bit tracker the level that its
    /// observation point shows in the given nodes, and then to every value
    /// tracker the value that the new samples amount to.
    pub fn update(&mut self, registers: &Vec<Register>, gates: &Vec<Gate>)
        requires
            old(self)@.fits(registers@.len(), gates@.len()),
        ensures
            final(self)@ == old(self)@.record((Nodes { registers: registers@, gates: gates@ })),
    {
        let ghost nodes = Nodes { registers: registers@, gates: gates@ };
        let ghost before = self@;
        let logic_count = self.logic_trackers.len();
        let mut index: usize = 0;
        while index < logic_count
            invariant
                index <= logic_count,
                logic_count == self.logic_trackers@.len(),
                before == old(self)@,
                before.fits(registers@.len(), gates@.len()),
                nodes == (Nodes { registers: registers@, gates: gates@ }),
                self@.logic.len() == before.logic.len(),
                self@.values == before.values,
                self@.show_trackers == before.show_trackers,
                self@.root_item == before.root_item,
                forall|done: int| 0 <= done < index ==> #[trigger] self@.logic[done] == before.logic[done].sample(nodes),
                forall|rest: int| index <= rest < logic_count ==> #[trigger] self@.logic[rest] == before.logic[rest],
            decreases logic_count - index,
        {
            let ghost earlier = self@;
            assert(earlier.logic[index as int] == before.logic[index as int]);
            let source = self.logic_trackers[index].source;
            let state = source.get_state(registers, gates);
            self.logic_trackers[index].states.push(state);
            assert(self@.logic[index as int] == before.logic[index as int].sample(nodes));
            assert forall|done: int| 0 <= done < index implies #[trigger] self@.logic[done]
                == before.logic[done].sample(nodes) by {
                assert(self@.logic[done] == earlier.logic[done]);
            }
            assert forall|rest: int| index < rest < logic_count implies #[trigger] self@.logic[rest]
                == before.logic[rest] by {
                assert(self@.logic[rest] == earlier.logic[rest]);
            }
            assert(self@.values =~= earlier.values);
            index += 1;
        }
        let ghost logic = self@.logic;
        assert(logic =~= before.sampled(nodes));
        let value_count = self.value_trackers.len();
        let mut index: usize = 0;
        while index < value_count
            invariant
                index <= value_count,
                value_count == self.value_trackers@.len(),
                before == old(self)@,
                before.fits(registers@.len(), gates@.len()),
                logic == before.sampled(nodes),
                self@.logic == logic,
                self@.values.len() == before.values.len(),
                self@.show_trackers == before.show_trackers,
                self@.root_item == before.root_item,
                forall|done: int| 0 <= done < index ==> #[trigger] self@.values[done] == before.values[done].derive(logic),
                forall|rest: int| index <= rest < value_count ==> #[trigger] self@.values[rest] == before.values[rest],
            decreases value_count - index,
        {
            let ghost earlier = self@;
            assert(earlier.values[index as int] == before.values[index as int]);
            assert(before.values[index as int].in_bounds(before.logic.len()));
            assert forall|position: int|
                0 <= position < self@.values[index as int].trackers.len()
                    implies self@.logic[(#[trigger] self@.values[index as int].trackers[position]) as int].states.len()
                    > 0 by {
                let tracker = self@.values[index as int].trackers[position] as int;
                assert(logic[tracker] == before.logic[tracker].sample(nodes));
            }
            let state = self.get_value_state(index);
            self.value_trackers[index].states.push(state);
            assert(self@.values[index as int] == before.values[index as int].derive(logic));
            assert forall|done: int| 0 <= done < index implies #[trigger] self@.values[done]
                == before.values[done].derive(logic) by {
                assert(self@.values[done] == earlier.values[done]);
            }
            assert forall|rest: int| index < rest < value_count implies #[trigger] self@.values[rest]
                == before.values[rest] by {
                assert(self@.values[rest] == earlier.values[rest]);
            }
            assert(self@.logic =~= earlier.logic);
            index += 1;
        }
        assert(self@.values =~= before.record(nodes).values);
    }

    /// What the latest samples of the bits of a value tracker amount to.
    pub fn get_value_state(&self, index: usize) -> (result: ValueState)
        requires
            index < self@.values.len(),
            self@.values[index as int].in_bounds(self@.logic.len()),
            forall|position: int|
                0 <= position < self@.values[index as int].trackers.len()
                    ==> self@.logic[(#[trigger] self@.values[index as int].trackers[position]) as int].states.len()
                    > 0,
        ensures
            result == reading(self@.values[index as int].latest(self@.logic)),
    {
        let ghost bits = self@.values[index as int].latest(self@.logic);
        let trackers = &self.value_trackers[index].trackers;
        let mut value: u64 = 0;
        let mut position: usize = 0;
        while position < trackers.len()
            invariant
                position <= trackers.len(),
                trackers@ == self@.values[index as int].trackers,
                bits == self@.values[index as int].latest(self@.logic),
                bits.len() == trackers.len(),
                self@.values[index as int].in_bounds(self@.logic.len()),
                forall|position: int|
                    0 <= position < self@.values[index as int].trackers.len()
                        ==> self@.logic[(#[trigger] self@.values[index as int].trackers[position]) as int].states.len()
                        > 0,
                forall|earlier: int| 0 <= earlier < position ==> (#[trigger] bits[earlier]).is_binary(),
                value == number(bits.take(position as int)) % 0x1_0000_0000_0000_0000,
            decreases trackers.len() - position,
        {
            let tracker = trackers[position];
            assert(tracker == self@.values[index as int].trackers[position as int]);
            assert(tracker < self@.logic.len());
            let states = &self.logic_trackers[tracker].states;
            assert(states@ == self@.logic[tracker as int].states);
            let state = states[states.len() - 1];
            assert(state == bits[position as int]);
            let ghost total = number(bits.take(position as int));
            proof {
                assert(bits.take(position + 1).drop_last() =~= bits.take(position as int));
                assert(bits.take(position + 1).last() == bits[position as int]);
            }
            match state {
                LogicState::High => {
                    let shifted = value << 1;
                    assert(shifted == (2 * value) % 0x1_0000_0000_0000_0000 && shifted | 1 == shifted
                        + 1) by (bit_vector)
                        requires
                            shifted == value << 1,
                    ;
                    value = shifted | 1;
                    proof {
                        lemma_shift_in(total, 1);
                    }
                },
                LogicState::Low => {
                    let shifted = value << 1;
                    assert(shifted == (2 * value) % 0x1_0000_0000_0000_0000) by (bit_vector)
                        requires
                            shifted == value << 1,
                    ;
                    value = shifted;
                    proof {
                        lemma_shift_in(total, 0);
                    }
                },
                LogicState::Metastable => {
                    proof {
                        lemma_first_unstable(bits, position as int);
                    }
                    return ValueState::Metastable;
                },
                LogicState::Floating => {
                    proof {
                        lemma_first_unstable(bits, position as int);
                    }
                    return ValueState::Floating;
                },
            }
            position += 1;
        }
        proof {
            lemma_first_unstable(bits, bits.len() as int);
            assert(bits.take(bits.len() as int) =~= bits);
        }
        ValueState::Stable(value)
    }
}

} // verus!
