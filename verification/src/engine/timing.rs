//! Why every delivery of a tick finds the network ready for it.

use vstd::prelude::*;
use super::network::{
    constant_delivered, constant_deliveries, constant_evaluations, drive_constants,
    drive_registers, register_delivered, register_deliveries, register_evaluations, Network,
};
use crate::logic::cascade::{
    lemma_cascade, lemma_cascade_delivered, lemma_cascade_deliveries, lemma_cascade_evaluations,
    lemma_cascade_follows, lemma_cascade_hazards, lemma_follows_on, lemma_pending_bound,
    lemma_stays_driven, newly_driven, newly_evaluated,
};
use crate::logic::gate::Gate;
use crate::logic::logic::LogicState;
use crate::logic::nodes::{backlog_of, Nodes};
use crate::logic::output::{Output, Slot};
use crate::topology::{lemma_fanin_grows, wiring_fanin};

verus! {

/// While no gate has both inputs driven, the backlog is the fan-in of all
/// gate wiring.
pub proof fn lemma_backlog_at_start(gates: Seq<Gate>, wiring: Seq<Output>, slot: Slot, count: nat)
    requires
        wiring.len() == gates.len(),
        count <= gates.len(),
        forall|index: int|
            0 <= index < gates.len() ==> !(#[trigger] gates[index]).both_driven() && wiring[index]
                == gates[index].output,
    ensures
        backlog_of(gates, slot, count) == wiring_fanin(wiring, slot, count),
    decreases count,
{
    if count > 0 {
        lemma_backlog_at_start(gates, wiring, slot, (count - 1) as nat);
        assert(!gates[count - 1].both_driven());
    }
}

impl Network {
    /// Whether `nodes` may be what a tick of this network has reached once
    /// the first `constants` constants and the first `registers` registers
    /// have had their turn: the wiring is that of the network, and no cell
    /// has had or is in for more deliveries than the wiring of the gates and
    /// of those sources accounts for.
    pub open spec fn underway(self, nodes: Nodes, constants: nat, registers: nat) -> bool {
        &&& nodes.same_wiring(self.nodes())
        &&& forall|slot: Slot| #[trigger]
            nodes.potential(slot) <= wiring_fanin(self.gate_wiring(), slot, self.gates.len())
                + wiring_fanin(self.constant_wiring(), slot, constants) + wiring_fanin(
                self.register_wiring(),
                slot,
                registers,
            )
    }

    /// In a valid network, nodes that are underway have all wiring inside
    /// the network, and room for the next constant and the next register at
    /// every cell.
    pub proof fn lemma_room(self, nodes: Nodes, constants: nat, registers: nat, slot: Slot)
        requires
            self.valid(),
            self.underway(nodes, constants, registers),
        ensures
            nodes.wired(),
            nodes.potential(slot) + (if constants < self.constants.len() {
                self.constants[constants as int].output.fanin(slot)
            } else {
                0
            }) + (if registers < self.registers.len() {
                nodes.registers[registers as int].output.fanin(slot)
            } else {
                0
            }) <= 1,
    {
        assert forall|index: int| 0 <= index < nodes.gates.len() implies (
        #[trigger] nodes.gates[index]).output.in_bounds(nodes.registers.len(), nodes.gates.len()) by {
            assert(self.gates[index].output.in_bounds(self.registers.len(), self.gates.len()));
        }
        assert(self.fanin(slot) <= 1);
        assert(nodes.potential(slot) <= wiring_fanin(self.gate_wiring(), slot, self.gates.len())
            + wiring_fanin(self.constant_wiring(), slot, constants) + wiring_fanin(
            self.register_wiring(),
            slot,
            registers,
        ));
        if constants < self.constants.len() {
            lemma_fanin_grows(self.constant_wiring(), slot, constants + 1, self.constants.len());
            assert(self.constant_wiring()[constants as int] == self.constants[constants as int].output);
        } else {
            lemma_fanin_grows(self.constant_wiring(), slot, self.constants.len(), constants);
            lemma_fanin_stops(self.constant_wiring(), slot, constants);
        }
        if registers < self.registers.len() {
            lemma_fanin_grows(self.register_wiring(), slot, registers + 1, self.registers.len());
            assert(self.register_wiring()[registers as int] == nodes.registers[registers as int].output);
        } else {
            lemma_fanin_stops(self.register_wiring(), slot, registers);
        }
    }

    /// In a valid network, the next constant finds nodes that are underway
    /// ready, and leaves them underway and following what they were.
    pub proof fn lemma_constant_served(self, nodes: Nodes, constants: nat, registers: nat, rising: bool)
        requires
            self.valid(),
            self.underway(nodes, constants, registers),
            constants < self.constants.len(),
        ensures
            ({
                let constant = self.constants[constants as int];
                let after = constant.output.deliver(nodes, rising, constant.state);
                &&& constant.output.ready(nodes)
                &&& self.underway(after, constants + 1, registers)
                &&& after.follows(nodes)
            }),
    {
        let constant = self.constants[constants as int];
        assert forall|slot: Slot| constant.output.fanin(slot) + #[trigger] nodes.potential(slot)
            <= 1 by {
            self.lemma_room(nodes, constants, registers, slot);
        }
        self.lemma_room(nodes, constants, registers, Slot::Register(0));
        assert(constant.output.in_bounds(nodes.registers.len(), nodes.gates.len()));
        lemma_pending_bound(nodes.gates, nodes.gates.len());
        lemma_cascade(constant.output, nodes, rising, constant.state, nodes.gates.len());
        lemma_cascade_follows(constant.output, nodes, rising, constant.state, nodes.gates.len());
        let after = constant.output.deliver(nodes, rising, constant.state);
        assert(self.constant_wiring()[constants as int] == constant.output);
        self.lemma_stays_underway(
            nodes,
            after,
            constant.output,
            constants,
            registers,
            constants + 1,
            registers,
        );
    }

    /// In a valid network, the next register finds nodes that are underway
    /// ready if it is active, and leaves them underway and following what
    /// they were.
    pub proof fn lemma_register_served(self, nodes: Nodes, constants: nat, registers: nat, rising: bool)
        requires
            self.valid(),
            self.underway(nodes, constants, registers),
            registers < self.registers.len(),
        ensures
            ({
                let register = nodes.registers[registers as int];
                let after = register.drive(nodes, rising);
                &&& register.output.ready(nodes)
                &&& self.underway(after, constants, registers + 1)
                &&& after.follows(nodes)
            }),
    {
        let register = nodes.registers[registers as int];
        assert forall|slot: Slot| register.output.fanin(slot) + #[trigger] nodes.potential(slot)
            <= 1 by {
            self.lemma_room(nodes, constants, registers, slot);
        }
        self.lemma_room(nodes, constants, registers, Slot::Register(0));
        assert(register.output == self.registers[registers as int].output);
        assert(register.output.in_bounds(nodes.registers.len(), nodes.gates.len()));
        assert(self.register_wiring()[registers as int] == register.output);
        let after = register.drive(nodes, rising);
        if register.rising == rising {
            lemma_pending_bound(nodes.gates, nodes.gates.len());
            lemma_cascade(register.output, nodes, rising, register.state, nodes.gates.len());
            lemma_cascade_follows(register.output, nodes, rising, register.state, nodes.gates.len());
            self.lemma_stays_underway(
                nodes,
                after,
                register.output,
                constants,
                registers,
                constants,
                registers + 1,
            );
        } else {
            assert forall|slot: Slot| #[trigger]
                nodes.potential(slot) <= wiring_fanin(self.gate_wiring(), slot, self.gates.len())
                    + wiring_fanin(self.constant_wiring(), slot, constants) + wiring_fanin(
                    self.register_wiring(),
                    slot,
                    registers + 1,
                ) by {
                lemma_fanin_grows(self.register_wiring(), slot, registers, registers + 1);
            }
        }
    }

    /// The nodes at the start of a tick are underway with no source served.
    pub proof fn lemma_underway_at_start(self)
        ensures
            self.underway(self.captured(), 0, 0),
    {
        let nodes = self.captured();
        assert forall|slot: Slot| #[trigger]
            nodes.potential(slot) <= wiring_fanin(self.gate_wiring(), slot, self.gates.len()) by {
            lemma_backlog_at_start(nodes.gates, self.gate_wiring(), slot, self.gates.len());
        }
    }

    /// In a valid network, each constant in turn finds the nodes ready, and
    /// leaves them underway.
    pub proof fn lemma_constants_served(self, rising: bool, count: nat)
        requires
            self.valid(),
            count <= self.constants.len(),
        ensures
            self.underway(drive_constants(self.constants, self.captured(), rising, count), count, 0),
        decreases count,
    {
        if count == 0 {
            self.lemma_underway_at_start();
        } else {
            let served = (count - 1) as nat;
            self.lemma_constants_served(rising, served);
            let before = drive_constants(self.constants, self.captured(), rising, served);
            self.lemma_constant_served(before, served, 0, rising);
        }
    }

    /// Nodes that are underway stay so over a cascade that the sources
    /// counted afterwards account for.
    pub proof fn lemma_stays_underway(
        self,
        before: Nodes,
        after: Nodes,
        output: Output,
        constants: nat,
        registers: nat,
        constants_after: nat,
        registers_after: nat,
    )
        requires
            self.underway(before, constants, registers),
            after.same_wiring(before),
            forall|slot: Slot| #[trigger]
                after.potential(slot) == output.fanin(slot) + before.potential(slot),
            forall|slot: Slot|
                output.fanin(slot) + wiring_fanin(self.constant_wiring(), slot, constants)
                    + wiring_fanin(self.register_wiring(), slot, registers) <= #[trigger] wiring_fanin(
                    self.constant_wiring(),
                    slot,
                    constants_after,
                ) + wiring_fanin(self.register_wiring(), slot, registers_after),
        ensures
            self.underway(after, constants_after, registers_after),
    {
        assert forall|slot: Slot| #[trigger]
            after.potential(slot) <= wiring_fanin(self.gate_wiring(), slot, self.gates.len())
                + wiring_fanin(self.constant_wiring(), slot, constants_after) + wiring_fanin(
                self.register_wiring(),
                slot,
                registers_after,
            ) by {
            assert(before.potential(slot) <= wiring_fanin(
                self.gate_wiring(),
                slot,
                self.gates.len(),
            ) + wiring_fanin(self.constant_wiring(), slot, constants) + wiring_fanin(
                self.register_wiring(),
                slot,
                registers,
            ));
            assert(output.fanin(slot) + wiring_fanin(self.constant_wiring(), slot, constants)
                + wiring_fanin(self.register_wiring(), slot, registers) <= wiring_fanin(
                self.constant_wiring(),
                slot,
                constants_after,
            ) + wiring_fanin(self.register_wiring(), slot, registers_after));
        }
        assert(after.same_wiring(self.nodes()));
    }

    /// In a valid network, each register in turn finds the nodes ready, and
    /// leaves them underway.
    pub proof fn lemma_registers_served(self, rising: bool, count: nat)
        requires
            self.valid(),
            count <= self.registers.len(),
        ensures
            self.underway(
                drive_registers(
                    drive_constants(self.constants, self.captured(), rising, self.constants.len()),
                    rising,
                    count,
                ),
                self.constants.len(),
                count,
            ),
        decreases count,
    {
        let start = drive_constants(self.constants, self.captured(), rising, self.constants.len());
        if count == 0 {
            self.lemma_constants_served(rising, self.constants.len());
        } else {
            let served = (count - 1) as nat;
            self.lemma_registers_served(rising, served);
            let before = drive_registers(start, rising, served);
            self.lemma_register_served(before, self.constants.len(), served, rising);
        }
    }

    /// A tick leaves the wiring of a valid network as it is, so the network
    /// stays valid.
    pub proof fn lemma_tick_valid(self, rising: bool)
        requires
            self.valid(),
        ensures
            self.tick(rising).valid(),
            self.tick(rising).nodes().same_wiring(self.nodes()),
    {
        self.lemma_registers_served(rising, self.registers.len());
        let after = self.tick(rising);
        assert(after.nodes() == self.settled(rising));
        self.lemma_rewired(after);
    }

    /// What the constants of a tick leave behind. In a valid network, the
    /// nodes after the first `count` constants follow those at the start of
    /// the tick, the hazard rule has been kept, and a gate has evaluated
    /// once if its pair of inputs has been completed and never else.
    pub proof fn lemma_constants_settle(self, rising: bool, count: nat, gate: int)
        requires
            self.valid(),
            count <= self.constants.len(),
        ensures
            ({
                let nodes = drive_constants(self.constants, self.captured(), rising, count);
                &&& nodes.follows(self.captured())
                &&& nodes.hazards_since(self.captured(), rising)
                &&& constant_evaluations(self.constants, self.captured(), rising, count, gate)
                    == newly_evaluated(self.captured(), nodes, gate)
            }),
        decreases count,
    {
        let start = self.captured();
        if count > 0 {
            let served = (count - 1) as nat;
            self.lemma_constants_settle(rising, served, gate);
            self.lemma_constants_served(rising, served);
            let before = drive_constants(self.constants, start, rising, served);
            let constant = self.constants[served as int];
            self.lemma_constant_served(before, served, 0, rising);
            lemma_pending_bound(before.gates, before.gates.len());
            let budget = before.gates.len();
            lemma_cascade(constant.output, before, rising, constant.state, budget);
            lemma_cascade_follows(constant.output, before, rising, constant.state, budget);
            lemma_cascade_hazards(constant.output, before, rising, constant.state, budget);
            lemma_cascade_evaluations(constant.output, before, rising, constant.state, budget, gate);
            let after = constant.output.deliver(before, rising, constant.state);
            lemma_follows_on(start, before, after);
            lemma_hazards_on(start, before, after, rising);
            if 0 <= gate < start.gates.len() && before.gates[gate].both_driven() {
                assert(after.gates[gate] == before.gates[gate]);
            }
        }
    }

    /// What a tick leaves behind. In a valid network, the nodes after the
    /// first `count` registers follow those at the start of the tick, the
    /// hazard rule has been kept, and a gate has evaluated once if its pair
    /// of inputs has been completed and never else.
    pub proof fn lemma_registers_settle(self, rising: bool, count: nat, gate: int)
        requires
            self.valid(),
            count <= self.registers.len(),
        ensures
            ({
                let driven = drive_constants(
                    self.constants,
                    self.captured(),
                    rising,
                    self.constants.len(),
                );
                let nodes = drive_registers(driven, rising, count);
                &&& nodes.follows(self.captured())
                &&& nodes.hazards_since(self.captured(), rising)
                &&& constant_evaluations(
                    self.constants,
                    self.captured(),
                    rising,
                    self.constants.len(),
                    gate,
                ) + register_evaluations(driven, rising, count, gate) == newly_evaluated(
                    self.captured(),
                    nodes,
                    gate,
                )
            }),
        decreases count,
    {
        let start = self.captured();
        let driven = drive_constants(self.constants, start, rising, self.constants.len());
        if count == 0 {
            self.lemma_constants_settle(rising, self.constants.len(), gate);
        } else {
            let served = (count - 1) as nat;
            self.lemma_registers_settle(rising, served, gate);
            self.lemma_registers_served(rising, served);
            let before = drive_registers(driven, rising, served);
            let register = before.registers[served as int];
            if register.rising == rising {
                self.lemma_register_served(before, self.constants.len(), served, rising);
                lemma_pending_bound(before.gates, before.gates.len());
                let budget = before.gates.len();
                lemma_cascade(register.output, before, rising, register.state, budget);
                lemma_cascade_follows(register.output, before, rising, register.state, budget);
                lemma_cascade_hazards(register.output, before, rising, register.state, budget);
                lemma_cascade_evaluations(
                    register.output,
                    before,
                    rising,
                    register.state,
                    budget,
                    gate,
                );
                let after = register.output.deliver(before, rising, register.state);
                lemma_follows_on(start, before, after);
                lemma_hazards_on(start, before, after, rising);
                if 0 <= gate < start.gates.len() && before.gates[gate].both_driven() {
                    assert(after.gates[gate] == before.gates[gate]);
                }
            }
        }
    }
}

impl Network {
    /// How many deliveries a cell gets from the constants of a tick. In a
    /// valid network, a cell has had one delivery once the first `count`
    /// constants have driven if it has been driven, and none else.
    pub proof fn lemma_constants_deliver(self, rising: bool, count: nat, slot: Slot)
        requires
            self.valid(),
            count <= self.constants.len(),
        ensures
            constant_deliveries(self.constants, self.captured(), rising, count, slot)
                == newly_driven(
                self.captured(),
                drive_constants(self.constants, self.captured(), rising, count),
                slot,
            ),
        decreases count,
    {
        let start = self.captured();
        if count > 0 {
            let served = (count - 1) as nat;
            self.lemma_constants_deliver(rising, served, slot);
            self.lemma_constants_served(rising, served);
            let before = drive_constants(self.constants, start, rising, served);
            let constant = self.constants[served as int];
            self.lemma_constant_served(before, served, 0, rising);
            lemma_pending_bound(before.gates, before.gates.len());
            lemma_cascade_deliveries(
                constant.output,
                before,
                rising,
                constant.state,
                before.gates.len(),
                slot,
            );
            let after = constant.output.deliver(before, rising, constant.state);
            lemma_stays_driven(before, after, slot);
        }
    }

    /// How many deliveries a cell gets in a tick. In a valid network, a
    /// cell has had one delivery once the constants and the first `count`
    /// registers have had their turn if it has been driven, and none else.
    pub proof fn lemma_registers_deliver(self, rising: bool, count: nat, slot: Slot)
        requires
            self.valid(),
            count <= self.registers.len(),
        ensures
            ({
                let driven = drive_constants(
                    self.constants,
                    self.captured(),
                    rising,
                    self.constants.len(),
                );
                constant_deliveries(
                    self.constants,
                    self.captured(),
                    rising,
                    self.constants.len(),
                    slot,
                ) + register_deliveries(driven, rising, count, slot) == newly_driven(
                    self.captured(),
                    drive_registers(driven, rising, count),
                    slot,
                )
            }),
        decreases count,
    {
        let start = self.captured();
        let driven = drive_constants(self.constants, start, rising, self.constants.len());
        if count == 0 {
            self.lemma_constants_deliver(rising, self.constants.len(), slot);
        } else {
            let served = (count - 1) as nat;
            self.lemma_registers_deliver(rising, served, slot);
            self.lemma_registers_served(rising, served);
            let before = drive_registers(driven, rising, served);
            let register = before.registers[served as int];
            self.lemma_register_served(before, self.constants.len(), served, rising);
            if register.rising == rising {
                lemma_pending_bound(before.gates, before.gates.len());
                lemma_cascade_deliveries(
                    register.output,
                    before,
                    rising,
                    register.state,
                    before.gates.len(),
                    slot,
                );
                let after = register.output.deliver(before, rising, register.state);
                lemma_stays_driven(before, after, slot);
            }
        }
    }
}

/// Whether `nodes` hold at `slot` what a tick that began with `start` and
/// has delivered `level` there, or nothing, leaves: the delivered level, a
/// register's input as the hazard rule has it, or else what the cell held,
/// not driven.
pub open spec fn holds_delivery(
    start: Nodes,
    nodes: Nodes,
    rising: bool,
    slot: Slot,
    level: Option<LogicState>,
) -> bool {
    match level {
        Some(level) => start.has(slot) && nodes.input(slot) == start.arriving(slot, rising, level),
        None => !nodes.driven(slot) && (start.has(slot) ==> nodes.input(slot) == start.input(slot)),
    }
}

impl Network {
    /// What the constants of a tick leave at a cell. In a valid network, a
    /// cell holds the level that one of the first `count` constants has
    /// delivered to it, and what it held if none has.
    pub proof fn lemma_constants_delivered(self, rising: bool, count: nat, slot: Slot)
        requires
            self.valid(),
            count <= self.constants.len(),
        ensures
            holds_delivery(
                self.captured(),
                drive_constants(self.constants, self.captured(), rising, count),
                rising,
                slot,
                constant_delivered(self.constants, self.captured(), rising, count, slot),
            ),
        decreases count,
    {
        let start = self.captured();
        if count > 0 {
            let served = (count - 1) as nat;
            self.lemma_constants_delivered(rising, served, slot);
            self.lemma_constants_served(rising, served);
            let before = drive_constants(self.constants, start, rising, served);
            let constant = self.constants[served as int];
            self.lemma_constant_served(before, served, 0, rising);
            lemma_pending_bound(before.gates, before.gates.len());
            lemma_cascade_delivered(
                constant.output,
                before,
                rising,
                constant.state,
                before.gates.len(),
                slot,
            );
            let after = constant.output.deliver(before, rising, constant.state);
            lemma_stays_driven(before, after, slot);
            if start.has(slot) {
                lemma_same_arrival(start, before, slot, rising);
            }
        }
    }

    /// What a tick leaves at a cell. In a valid network, a cell holds the
    /// level that a constant or one of the first `count` registers has
    /// delivered to it, and what it held if none has.
    pub proof fn lemma_registers_delivered(self, rising: bool, count: nat, slot: Slot)
        requires
            self.valid(),
            count <= self.registers.len(),
        ensures
            ({
                let driven = drive_constants(
                    self.constants,
                    self.captured(),
                    rising,
                    self.constants.len(),
                );
                holds_delivery(
                    self.captured(),
                    drive_registers(driven, rising, count),
                    rising,
                    slot,
                    match constant_delivered(
                        self.constants,
                        self.captured(),
                        rising,
                        self.constants.len(),
                        slot,
                    ) {
                        Some(level) => Some(level),
                        None => register_delivered(driven, rising, count, slot),
                    },
                )
            }),
        decreases count,
    {
        let start = self.captured();
        let driven = drive_constants(self.constants, start, rising, self.constants.len());
        if count == 0 {
            self.lemma_constants_delivered(rising, self.constants.len(), slot);
        } else {
            let served = (count - 1) as nat;
            self.lemma_registers_delivered(rising, served, slot);
            self.lemma_registers_served(rising, served);
            let before = drive_registers(driven, rising, served);
            let register = before.registers[served as int];
            self.lemma_register_served(before, self.constants.len(), served, rising);
            if register.rising == rising {
                lemma_pending_bound(before.gates, before.gates.len());
                lemma_cascade_delivered(
                    register.output,
                    before,
                    rising,
                    register.state,
                    before.gates.len(),
                    slot,
                );
                let after = register.output.deliver(before, rising, register.state);
                lemma_stays_driven(before, after, slot);
                if start.has(slot) {
                    lemma_same_arrival(start, before, slot, rising);
                }
            }
        }
    }
}

impl Network {
    /// Every register after a tick, in closed form. In a valid network, a
    /// register is after a tick what `register_after` says, and it gets one
    /// delivery in the tick if a level is delivered to it, and none else.
    pub proof fn lemma_register_after(self, rising: bool, index: usize)
        requires
            self.valid(),
            index < self.registers.len(),
        ensures
            self.tick(rising).registers[index as int] == self.register_after(rising, index),
            self.deliveries(rising, Slot::Register(index)) == if self.delivered(
                rising,
                Slot::Register(index),
            ) is Some {
                1nat
            } else {
                0nat
            },
    {
        let slot = Slot::Register(index);
        let count = self.registers.len();
        self.lemma_registers_delivered(rising, count, slot);
        self.lemma_registers_deliver(rising, count, slot);
        self.lemma_registers_settle(rising, count, 0);
        let after = self.settled(rising);
        assert(self.tick(rising).nodes() == after);
        assert(after.registers[index as int].state == self.captured().registers[index as int].state);
        assert(!self.captured().driven(slot));
    }

    /// Every gate after a tick, in closed form. In a valid network, a gate
    /// is after a tick what `gate_after` says; each input gets one delivery
    /// in the tick if a level is delivered to it, and none else; and the
    /// gate evaluates once in the tick if both inputs get a level, and not
    /// at all else.
    pub proof fn lemma_gate_after(self, rising: bool, index: usize)
        requires
            self.valid(),
            index < self.gates.len(),
        ensures
            self.tick(rising).gates[index as int] == self.gate_after(rising, index),
            forall|right: bool|
                #[trigger] self.deliveries(rising, Slot::Gate(index, right)) == if self.delivered(
                    rising,
                    Slot::Gate(index, right),
                ) is Some {
                    1nat
                } else {
                    0nat
                },
            self.evaluations(rising, index as int) == if self.delivered(
                rising,
                Slot::Gate(index, false),
            ) is Some && self.delivered(rising, Slot::Gate(index, true)) is Some {
                1nat
            } else {
                0nat
            },
    {
        let count = self.registers.len();
        self.lemma_registers_delivered(rising, count, Slot::Gate(index, false));
        self.lemma_registers_delivered(rising, count, Slot::Gate(index, true));
        self.lemma_registers_deliver(rising, count, Slot::Gate(index, false));
        self.lemma_registers_deliver(rising, count, Slot::Gate(index, true));
        self.lemma_registers_settle(rising, count, index as int);
        let after = self.settled(rising);
        assert(self.tick(rising).nodes() == after);
        assert(!self.captured().driven(Slot::Gate(index, false)));
        assert(!self.captured().driven(Slot::Gate(index, true)));
        assert(!self.captured().gates[index as int].both_driven());
        assert forall|right: bool|
            #[trigger] self.deliveries(rising, Slot::Gate(index, right)) == if self.delivered(
                rising,
                Slot::Gate(index, right),
            ) is Some {
                1nat
            } else {
                0nat
            } by {
            if right {
            } else {
            }
        }
    }
}

/// What arrives at a cell depends on the wiring alone.
pub proof fn lemma_same_arrival(start: Nodes, nodes: Nodes, slot: Slot, rising: bool)
    requires
        nodes.same_wiring(start),
        start.has(slot),
    ensures
        forall|level: LogicState| #[trigger]
            nodes.arriving(slot, rising, level) == start.arriving(slot, rising, level),
{
    match slot {
        Slot::Register(index) => {
            assert(nodes.registers[index as int].rising == start.registers[index as int].rising);
        },
        Slot::Gate(_, _) => {},
    }
}

/// The hazard rule, kept over one stretch and over the next, has been kept
/// over both.
pub proof fn lemma_hazards_on(before: Nodes, middle: Nodes, after: Nodes, rising: bool)
    requires
        middle.follows(before),
        after.follows(middle),
        middle.hazards_since(before, rising),
        after.hazards_since(middle, rising),
    ensures
        after.hazards_since(before, rising),
{
    assert forall|index: int|
        0 <= index < after.registers.len() && (#[trigger] after.registers[index]).input.updated
            && !before.registers[index].input.updated && after.registers[index].rising
            == rising implies after.registers[index].input.state == LogicState::Metastable by {
        assert(middle.registers[index].rising == before.registers[index].rising);
    }
}

/// Counting wirings beyond the last adds nothing to a fan-in.
pub proof fn lemma_fanin_stops(wiring: Seq<Output>, slot: Slot, count: nat)
    requires
        count >= wiring.len(),
    ensures
        wiring_fanin(wiring, slot, count) == wiring_fanin(wiring, slot, wiring.len()),
    decreases count,
{
    if count > wiring.len() {
        lemma_fanin_stops(wiring, slot, (count - 1) as nat);
    }
}

} // verus!
