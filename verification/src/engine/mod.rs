//! The network engine: the collections of nodes and the tick that advances
//! them.

pub mod fixture;
pub mod network;
pub mod order;
pub mod timing;
pub mod validity;

pub use self::network::Network;

use vstd::prelude::*;
use self::fixture::{
    fixture, fixture_tree, fixture_trackers, fixture_value_trackers, group, label,
    lemma_fixture_valid,
};
use self::network::{drive_constants, drive_registers};
use crate::inspector::{
    Formatting, Group, Inspector, InspectorItem, Label, LabelSource, LogicTracker, Recording,
    ValueTracker,
};
use crate::logic::constant::Constant;
use crate::logic::gate::Gate;
use crate::logic::input::Input;
use crate::logic::logic::LogicState;
use crate::logic::nodes::Nodes;
use crate::logic::operator::Operator;
use crate::logic::output::Output;
use crate::logic::register::Register;
use crate::topology::{
    find_dangling, find_loop, lemma_first_dangling, wiring_of, wiring_of_gates, Claims,
    TopologyError,
};
use crate::types::key::Key;

verus! {

/// One core of the emulated device: a network, the number of rising ticks
/// it has been through, and a recorder where one is attached.
#[derive(Debug)]
pub struct Core {
    cycle_count: usize,
    gates: Vec<Gate>,
    registers: Vec<Register>,
    constants: Vec<Constant>,
    inspector: Option<Inspector>,
}

/// What a core holds, as plain values.
pub struct CoreState {
    pub network: Network,
    pub inspector: Option<Recording>,
}

impl CoreState {
    /// Whether the network is well formed and the recorder, if there is
    /// one, fits it.
    pub open spec fn valid(self) -> bool {
        &&& self.network.valid()
        &&& match self.inspector {
            Some(recording) => recording.fits(
                self.network.registers.len(),
                self.network.gates.len(),
            ),
            None => true,
        }
    }

    /// What keeps a core from being built of this, if anything does: the
    /// first defect of the topology; else the first defect of the recorder.
    pub open spec fn defect(self) -> Option<TopologyError> {
        match self.network.defect() {
            Some(error) => Some(error),
            None => match self.inspector {
                Some(recording) => recording.defect(
                    self.network.registers.len(),
                    self.network.gates.len(),
                ),
                None => None,
            },
        }
    }

    /// What a defect says of this: one of the topology that the topology is
    /// flawed as the error has it, and one of the recorder that the topology
    /// is well formed and the recorder does not fit as the error has it.
    pub open spec fn refused(self, error: TopologyError) -> bool {
        match error {
            TopologyError::Dangling(_) | TopologyError::DoubleDriver(_) | TopologyError::Loop(
                _,
            ) => self.network.flawed(error),
            _ => {
                &&& self.network.valid()
                &&& self.inspector matches Some(recording)
                &&& recording.misfit(self.network.registers.len(), self.network.gates.len(), error)
            },
        }
    }

    /// This is valid if and only if it has no defect, and a defect says of
    /// it what its name says.
    pub proof fn lemma_defect(self)
        requires
            self.network.gates.len() <= usize::MAX,
            self.inspector matches Some(recording) ==> recording.logic.len() <= usize::MAX
                && recording.values.len() <= usize::MAX,
        ensures
            self.defect() is None <==> self.valid(),
            self.defect() matches Some(error) ==> self.refused(error),
    {
        self.network.lemma_defect();
        if let Some(recording) = self.inspector {
            recording.lemma_defect(self.network.registers.len(), self.network.gates.len());
        }
    }

    /// Whether `other` is this with other levels, flags, samples and cycle
    /// count: the nodes are wired as they are here, the constants are the
    /// same, and a recorder, where there is one, fits.
    pub open spec fn rewired(self, other: CoreState) -> bool {
        &&& other.network.nodes().same_wiring(self.network.nodes())
        &&& other.network.constants == self.network.constants
        &&& other.inspector matches Some(recording) ==> recording.fits(
            other.network.registers.len(),
            other.network.gates.len(),
        )
    }

    /// What is valid stays valid while only levels, flags, samples and the
    /// cycle count change.
    pub proof fn lemma_rewired(self, other: CoreState)
        requires
            self.valid(),
            self.rewired(other),
        ensures
            other.valid(),
    {
        self.network.lemma_rewired(other.network);
    }

    /// The core after one tick of phase `rising`: the network has advanced
    /// by a half-cycle, and the recorder has then taken one sample set of
    /// the settled nodes.
    pub open spec fn tick(self, rising: bool) -> CoreState {
        let network = self.network.tick(rising);
        CoreState {
            network: network,
            inspector: match self.inspector {
                Some(recording) => Some(recording.record(network.nodes())),
                None => None,
            },
        }
    }

    /// The core after the ticks of the given phases, one after the other.
    pub open spec fn run(self, phases: Seq<bool>) -> CoreState
        decreases phases.len(),
    {
        if phases.len() == 0 {
            self
        } else {
            self.run(phases.drop_last()).tick(phases.last())
        }
    }

    /// A tick keeps what is valid valid.
    pub proof fn lemma_tick_valid(self, rising: bool)
        requires
            self.valid(),
        ensures
            self.tick(rising).valid(),
    {
        self.network.lemma_tick_valid(rising);
        self.lemma_rewired(self.tick(rising));
    }

    /// The core after a key other than the space bar has been pressed.
    pub open spec fn key_pressed(self, key: Key) -> CoreState {
        CoreState {
            inspector: match self.inspector {
                Some(recording) => Some(recording.key_pressed(key)),
                None => None,
            },
            ..self
        }
    }
}

impl View for Core {
    type V = CoreState;

    closed spec fn view(&self) -> CoreState {
        CoreState {
            network: Network {
                gates: self.gates@,
                registers: self.registers@,
                constants: self.constants@,
                cycle_count: self.cycle_count as nat,
            },
            inspector: match self.inspector {
                Some(inspector) => Some(inspector@),
                None => None,
            },
        }
    }
}

/// What a core built of the given nodes, and of a recorder where one is
/// given, holds before its first tick.
pub open spec fn blueprint(
    gates: Vec<Gate>,
    registers: Vec<Register>,
    constants: Vec<Constant>,
    inspector: Option<Inspector>,
) -> CoreState {
    CoreState {
        network: Network {
            gates: gates@,
            registers: registers@,
            constants: constants@,
            cycle_count: 0,
        },
        inspector: match inspector {
            Some(inspector) => Some(inspector@),
            None => None,
        },
    }
}

/// Builds a core of the given nodes, and of a recorder where one is given,
/// if the topology is well formed and the recorder fits it. The core is
/// built whole or not at all, and the error names the first offender.
pub fn build_network(
    gates: Vec<Gate>,
    registers: Vec<Register>,
    constants: Vec<Constant>,
    inspector: Option<Inspector>,
) -> (result: Result<Core, TopologyError>)
    ensures
        result is Ok <==> blueprint(gates, registers, constants, inspector).valid(),
        match result {
            Ok(core) => core@ == blueprint(gates, registers, constants, inspector),
            Err(error) => {
                &&& blueprint(gates, registers, constants, inspector).defect() == Some(error)
                &&& blueprint(gates, registers, constants, inspector).refused(error)
            },
        },
{
    let ghost plan = blueprint(gates, registers, constants, inspector);
    proof {
        if let Some(recorder) = &inspector {
            recorder.lemma_sizes();
        }
        assert(gates@.len() == gates.len());
        plan.lemma_defect();
        plan.network.lemma_wiring_in_bounds();
    }
    let register_count = registers.len();
    let gate_count = gates.len();
    let wiring = wiring_of(&constants, &registers, &gates);
    assert(wiring@ == plan.network.wiring());
    if let Some(slot) = find_dangling(&wiring, register_count, gate_count) {
        return Err(TopologyError::Dangling(slot));
    }
    proof {
        lemma_first_dangling(wiring@, register_count as nat, gate_count as nat);
    }
    let mut claims = Claims::new(register_count, gate_count);
    let clash = claims.claim_all(&wiring);
    if let Some(slot) = clash {
        return Err(TopologyError::DoubleDriver(slot));
    }
    let gate_wiring = wiring_of_gates(&gates);
    assert(gate_wiring@ == plan.network.gate_wiring());
    if let Some(gate) = find_loop(&gate_wiring) {
        return Err(TopologyError::Loop(gate));
    }
    if let Some(recorder) = &inspector {
        if let Some(error) = recorder.check(register_count, gate_count) {
            return Err(error);
        }
    }
    Ok(Core {
        cycle_count: 0,
        gates: gates,
        registers: registers,
        constants: constants,
        inspector: inspector,
    })
}

/// An expanded group of three labels.
fn three_labels(
    identifier: &'static str,
    tracker: Option<(usize, Formatting)>,
    first: Label,
    second: Label,
    third: Label,
) -> (result: InspectorItem)
    ensures
        result.shows(
            group(
                identifier,
                tracker,
                seq![
                    label(first.identifier, first.tracker),
                    label(second.identifier, second.tracker),
                    label(third.identifier, third.tracker),
                ],
            ),
        ),
{
    let mut items: Vec<InspectorItem> = Vec::new();
    items.push(InspectorItem::Label(first));
    items.push(InspectorItem::Label(second));
    items.push(InspectorItem::Label(third));
    let ghost entries = seq![
        label(first.identifier, first.tracker),
        label(second.identifier, second.tracker),
        label(third.identifier, third.tracker),
    ];
    assert(items@[0].shows(entries[0]));
    assert(items@[1].shows(entries[1]));
    assert(items@[2].shows(entries[2]));
    let result = Group::new(identifier, tracker, items);
    assert(result.shows(group(identifier, tracker, entries)));
    InspectorItem::Group(result)
}

impl Core {
    /// Loads the core. There is one circuit so far, whatever the file name;
    /// a recorder is attached where `debugging` asks for one.
    pub fn load(_filename: String, debugging: bool) -> (result: Self)
        ensures
            result@.valid(),
            result@.network == fixture(),
            result@.inspector is Some <==> debugging,
            result@.inspector matches Some(recording) ==> {
                &&& recording.show_trackers
                &&& recording.root_item.shows(fixture_tree())
                &&& recording.logic == fixture_trackers()
                &&& recording.values == fixture_value_trackers()
            },
    {
        let mut gates: Vec<Gate> = Vec::new();
        let mut registers: Vec<Register> = Vec::new();
        let mut constants: Vec<Constant> = Vec::new();
        let mut core_group: Vec<InspectorItem> = Vec::new();

        let mut logic_trackers: Vec<LogicTracker> = Vec::new();
        let mut value_trackers: Vec<ValueTracker> = Vec::new();

        logic_trackers.push(LogicTracker::new(LabelSource::Gate(0, false)));
        logic_trackers.push(LogicTracker::new(LabelSource::Gate(1, false)));
        logic_trackers.push(LogicTracker::new(LabelSource::Gate(2, false)));
        logic_trackers.push(LogicTracker::new(LabelSource::Gate(0, true)));
        logic_trackers.push(LogicTracker::new(LabelSource::Gate(1, true)));
        logic_trackers.push(LogicTracker::new(LabelSource::Gate(2, true)));

        logic_trackers.push(LogicTracker::new(LabelSource::Register(6)));
        logic_trackers.push(LogicTracker::new(LabelSource::Register(7)));
        logic_trackers.push(LogicTracker::new(LabelSource::Register(8)));

        logic_trackers.push(LogicTracker::new(LabelSource::Register(0)));
        logic_trackers.push(LogicTracker::new(LabelSource::Register(1)));
        logic_trackers.push(LogicTracker::new(LabelSource::Register(2)));

        logic_trackers.push(LogicTracker::new(LabelSource::Register(3)));
        logic_trackers.push(LogicTracker::new(LabelSource::Register(4)));
        logic_trackers.push(LogicTracker::new(LabelSource::Register(5)));

        value_trackers.push(ValueTracker::new(vec![2, 1, 0]));
        value_trackers.push(ValueTracker::new(vec![5, 4, 3]));

        let input0 = three_labels(
            "input 0",
            Some((0, Formatting::Binary)),
            Label::new("register 0", 0),
            Label::new("register 1", 1),
            Label::new("register 2", 2),
        );
        let input1 = three_labels(
            "input 1",
            Some((1, Formatting::Binary)),
            Label::new("register 0", 3),
            Label::new("register 1", 4),
            Label::new("register 2", 5),
        );
        let gate_labels = three_labels(
            "gates",
            None,
            Label::new("AND gate", 6),
            Label::new("XOR gate", 7),
            Label::new("XOR gate", 8),
        );
        let buffer = three_labels(
            "buffer",
            None,
            Label::new("register 0", 9),
            Label::new("register 1", 1),
            Label::new("register 2", 1),
        );
        let inverter = three_labels(
            "inverter",
            None,
            Label::new("output 0", 1),
            Label::new("output 1", 1),
            Label::new("output 2", 1),
        );
        core_group.push(input0);
        core_group.push(input1);
        core_group.push(gate_labels);
        core_group.push(buffer);
        core_group.push(inverter);

        let root_item = InspectorItem::Group(Group::new("core", None, core_group));
        assert(root_item.shows(fixture_tree())) by {
            let entries = fixture_tree()->Group_items;
            assert(core_group@[0].shows(entries[0]));
            assert(core_group@[1].shows(entries[1]));
            assert(core_group@[2].shows(entries[2]));
            assert(core_group@[3].shows(entries[3]));
            assert(core_group@[4].shows(entries[4]));
        }

        registers.push(Register::new(Input::new(LogicState::High), Output::Gate(0, false), true));
        registers.push(Register::new(Input::new(LogicState::Low), Output::Gate(1, false), true));
        registers.push(Register::new(Input::new(LogicState::High), Output::Gate(2, false), true));

        registers.push(Register::new(Input::new(LogicState::High), Output::Gate(0, true), true));
        registers.push(Register::new(Input::new(LogicState::High), Output::Gate(1, true), true));
        registers.push(Register::new(Input::new(LogicState::High), Output::Gate(2, true), true));

        gates.push(Gate::new(Operator::And, Output::Register(6)));
        gates.push(Gate::new(Operator::Xor, Output::Register(7)));
        gates.push(Gate::new(Operator::Xor, Output::Register(8)));

        let splitter0 = Output::Splitter(
            Box::new(Output::Register(0)),
            Box::new(Output::Gate(3, false)),
        );
        let splitter1 = Output::Splitter(
            Box::new(Output::Register(1)),
            Box::new(Output::Gate(4, false)),
        );
        let splitter2 = Output::Splitter(
            Box::new(Output::Register(2)),
            Box::new(Output::Gate(5, false)),
        );

        registers.push(Register::new(Input::new(LogicState::Floating), splitter0, false));
        registers.push(Register::new(Input::new(LogicState::Floating), splitter1, false));
        registers.push(Register::new(Input::new(LogicState::Floating), splitter2, false));

        constants.push(Constant::new(LogicState::High, Output::Gate(3, true)));
        constants.push(Constant::new(LogicState::High, Output::Gate(4, true)));
        constants.push(Constant::new(LogicState::High, Output::Gate(5, true)));

        gates.push(Gate::new(Operator::And, Output::Register(3)));
        gates.push(Gate::new(Operator::And, Output::Register(4)));
        gates.push(Gate::new(Operator::And, Output::Register(5)));

        let inspector = if debugging {
            Some(Inspector::new(logic_trackers, value_trackers, root_item))
        } else {
            None
        };

        proof {
            lemma_fixture_valid();
            assert(gates@ =~= fixture().gates);
            assert(registers@ =~= fixture().registers);
            assert(constants@ =~= fixture().constants);
            if debugging {
                let recording = inspector->0@;
                assert(recording.logic =~= fixture_trackers());
                assert(value_trackers@[0]@.trackers =~= fixture_value_trackers()[0].trackers);
                assert(value_trackers@[1]@.trackers =~= fixture_value_trackers()[1].trackers);
                assert(recording.values =~= fixture_value_trackers());
                assert(recording.fits(9, 6)) by {
                    assert forall|index: int| 0 <= index < 15 implies (
                    #[trigger] recording.logic[index]).source.in_bounds(9, 6) by {
                        assert(recording.logic[index] == fixture_trackers()[index]);
                    }
                    assert(recording.values[0].in_bounds(15));
                    assert(recording.values[1].in_bounds(15));
                }
            }
        }
        Self {
            cycle_count: 0,
            gates: gates,
            registers: registers,
            constants: constants,
            inspector: inspector,
        }
    }

    /// The number of rising ticks so far.
    pub fn cycle_count(&self) -> (result: usize)
        ensures
            result == self@.network.cycle_count,
    {
        self.cycle_count
    }

    pub fn gates(&self) -> (result: &Vec<Gate>)
        ensures
            result@ == self@.network.gates,
    {
        &self.gates
    }

    pub fn registers(&self) -> (result: &Vec<Register>)
        ensures
            result@ == self@.network.registers,
    {
        &self.registers
    }

    pub fn constants(&self) -> (result: &Vec<Constant>)
        ensures
            result@ == self@.network.constants,
    {
        &self.constants
    }

    /// The recorder, if one is attached.
    pub fn inspector(&self) -> (result: Option<&Inspector>)
        ensures
            match result {
                Some(inspector) => self@.inspector == Some(inspector@),
                None => self@.inspector.is_none(),
            },
    {
        self.inspector.as_ref()
    }

    /// Hands a key other than the space bar on to the recorder.
    pub fn handle_key_input(&mut self, key: Key)
        ensures
            final(self)@ == old(self)@.key_pressed(key),
            old(self)@.valid() ==> final(self)@.valid(),
    {
        if let Some(inspector) = &mut self.inspector {
            inspector.handle_key_input(key);
        }
        proof {
            if old(self)@.valid() {
                old(self)@.lemma_rewired(self@);
            }
        }
    }

    /// Advances the network by one half-cycle of phase `rising`, and lets
    /// the recorder sample the settled nodes.
    ///
    /// Every register captures the level at its input, and every input
    /// counts as not driven. Then every constant drives its wiring, and
    /// then every register that is active on this edge. On a rising tick the
    /// cycle count goes up by one, which it has to have room for.
    ///
    /// Afterwards every register has latched what was at its input, and
    /// holds at its input what was delivered to it, metastable if that was
    /// on its own edge; every gate whose two inputs were driven has
    /// evaluated, once, and every other gate shows what it showed; and the
    /// cycle count has gone up on a rising tick and on no other.
    pub fn tick(&mut self, rising: bool)
        requires
            old(self)@.valid(),
            rising ==> old(self)@.network.cycle_count < usize::MAX,
        ensures
            final(self)@ == old(self)@.tick(rising),
            final(self)@.valid(),
            final(self)@.network.cycle_count == old(self)@.network.cycle_count + if rising {
                1nat
            } else {
                0nat
            },
            final(self)@.network.constants == old(self)@.network.constants,
            final(self)@.network.registers.len() == old(self)@.network.registers.len(),
            final(self)@.network.gates.len() == old(self)@.network.gates.len(),
            forall|index: usize|
                index < old(self)@.network.registers.len() ==> (
                #[trigger] final(self)@.network.registers[index as int])
                    == old(self)@.network.register_after(rising, index),
            forall|index: usize|
                index < old(self)@.network.gates.len() ==> {
                    &&& (#[trigger] final(self)@.network.gates[index as int])
                        == old(self)@.network.gate_after(rising, index)
                    &&& old(self)@.network.evaluations(rising, index as int)
                        == if final(self)@.network.gates[index as int].both_driven() {
                        1nat
                    } else {
                        0nat
                    }
                },
    {
        let ghost before = self@.network;
        let ghost recording = self@.inspector;
        let register_count = self.registers.len();
        let mut index: usize = 0;
        while index < register_count
            invariant
                index <= register_count,
                register_count == self.registers@.len(),
                before == old(self)@.network,
                self.registers@.len() == before.registers.len(),
                self.gates@ == before.gates,
                self.constants@ == before.constants,
                self.cycle_count == before.cycle_count,
                self@.inspector == recording,
                forall|done: int|
                    0 <= done < index ==> #[trigger] self.registers@[done]
                        == before.registers[done].captured(),
                forall|rest: int|
                    index <= rest < register_count ==> #[trigger] self.registers@[rest]
                        == before.registers[rest],
            decreases register_count - index,
        {
            self.registers[index].reset();
            index += 1;
        }
        let gate_count = self.gates.len();
        let mut index: usize = 0;
        while index < gate_count
            invariant
                index <= gate_count,
                gate_count == self.gates@.len(),
                before == old(self)@.network,
                self.gates@.len() == before.gates.len(),
                self.registers@ == before.captured().registers,
                self.constants@ == before.constants,
                self.cycle_count == before.cycle_count,
                self@.inspector == recording,
                forall|done: int|
                    0 <= done < index ==> #[trigger] self.gates@[done] == before.gates[done].cleared(),
                forall|rest: int|
                    index <= rest < gate_count ==> #[trigger] self.gates@[rest] == before.gates[rest],
            decreases gate_count - index,
        {
            self.gates[index].reset();
            index += 1;
        }
        assert(self.gates@ =~= before.captured().gates);
        let constant_count = self.constants.len();
        let mut index: usize = 0;
        while index < constant_count
            invariant
                index <= constant_count,
                constant_count == self.constants@.len(),
                before == old(self)@.network,
                before.valid(),
                self.constants@ == before.constants,
                self.cycle_count == before.cycle_count,
                self@.inspector == recording,
                (Nodes { registers: self.registers@, gates: self.gates@ }) == drive_constants(
                    before.constants,
                    before.captured(),
                    rising,
                    index as nat,
                ),
            decreases constant_count - index,
        {
            proof {
                before.lemma_constants_served(rising, index as nat);
                before.lemma_constant_served(
                    (Nodes { registers: self.registers@, gates: self.gates@ }),
                    index as nat,
                    0,
                    rising,
                );
            }
            self.constants[index].update(&mut self.registers, &mut self.gates, rising);
            index += 1;
        }
        let ghost driven = drive_constants(
            before.constants,
            before.captured(),
            rising,
            before.constants.len(),
        );
        proof {
            before.lemma_constants_served(rising, before.constants.len());
        }
        let register_count = self.registers.len();
        let mut index: usize = 0;
        while index < register_count
            invariant
                index <= register_count,
                register_count == self.registers@.len(),
                register_count == before.registers.len(),
                before == old(self)@.network,
                before.valid(),
                self.constants@ == before.constants,
                self.cycle_count == before.cycle_count,
                self@.inspector == recording,
                driven == drive_constants(
                    before.constants,
                    before.captured(),
                    rising,
                    before.constants.len(),
                ),
                (Nodes { registers: self.registers@, gates: self.gates@ }) == drive_registers(
                    driven,
                    rising,
                    index as nat,
                ),
            decreases register_count - index,
        {
            proof {
                before.lemma_registers_served(rising, index as nat);
                before.lemma_registers_served(rising, (index + 1) as nat);
            }
            if self.registers[index].rising == rising {
                proof {
                    before.lemma_register_served(
                        (Nodes { registers: self.registers@, gates: self.gates@ }),
                        before.constants.len(),
                        index as nat,
                        rising,
                    );
                }
                let register = self.registers[index].clone();
                register.update(&mut self.registers, &mut self.gates, rising);
            }
            index += 1;
        }
        proof {
            before.lemma_tick_valid(rising);
            let after = before.tick(rising);
            assert forall|index: usize| index < before.registers.len() implies (
            #[trigger] after.registers[index as int]) == before.register_after(rising, index) by {
                before.lemma_register_after(rising, index);
            }
            assert forall|index: usize| index < before.gates.len() implies {
                &&& (#[trigger] after.gates[index as int]) == before.gate_after(rising, index)
                &&& before.evaluations(rising, index as int)
                    == if after.gates[index as int].both_driven() {
                    1nat
                } else {
                    0nat
                }
            } by {
                before.lemma_gate_after(rising, index);
            }
        }
        if let Some(inspector) = &mut self.inspector {
            inspector.update(&self.registers, &self.gates);
        }
        if rising {
            self.cycle_count += 1;
        }
    }
}

} // verus!
