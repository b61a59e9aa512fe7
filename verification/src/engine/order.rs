//! Why it does not matter whether the constants or the registers of a tick
//! drive first.

use vstd::prelude::*;
use super::network::{drive_constants, drive_registers, Network};
use crate::logic::cascade::lemma_follows_on;
use crate::logic::nodes::Nodes;
use crate::logic::order::{lemma_deliveries_commute, lemma_ready_for_both};
use crate::logic::output::Slot;

verus! {

impl Network {
    /// In a valid network, a register may have its turn before or after any
    /// number of constants: the nodes end up the same.
    pub proof fn lemma_register_passes_constants(
        self,
        nodes: Nodes,
        constants: nat,
        registers: nat,
        rising: bool,
    )
        requires
            self.valid(),
            self.underway(nodes, 0, registers),
            constants <= self.constants.len(),
            registers < self.registers.len(),
        ensures
            ({
                let driven = drive_constants(self.constants, nodes, rising, constants);
                &&& self.underway(driven, constants, registers)
                &&& driven.follows(nodes)
                &&& driven.registers[registers as int].drive(driven, rising) == drive_constants(
                    self.constants,
                    nodes.registers[registers as int].drive(nodes, rising),
                    rising,
                    constants,
                )
            }),
        decreases constants,
    {
        if constants > 0 {
            let served = (constants - 1) as nat;
            self.lemma_register_passes_constants(nodes, served, registers, rising);
            let before = drive_constants(self.constants, nodes, rising, served);
            let constant = self.constants[served as int];
            let register = before.registers[registers as int];
            self.lemma_constant_served(before, served, registers, rising);
            let driven = constant.output.deliver(before, rising, constant.state);
            lemma_follows_on(nodes, before, driven);
            assert(driven.registers[registers as int].state == register.state);
            assert(driven.registers[registers as int].output == register.output);
            assert(driven.registers[registers as int].rising == register.rising);
            assert(nodes.registers[registers as int].state == register.state);
            if register.rising == rising {
                assert forall|slot: Slot|
                    constant.output.fanin(slot) + register.output.fanin(slot)
                        + #[trigger] before.potential(slot) <= 1 by {
                    self.lemma_room(before, served, registers, slot);
                }
                self.lemma_room(before, served, registers, Slot::Register(0));
                assert(register.output == self.registers[registers as int].output);
                lemma_ready_for_both(constant.output, register.output, before, before);
                lemma_deliveries_commute(
                    constant.output,
                    constant.state,
                    register.output,
                    register.state,
                    before,
                    rising,
                );
            }
        }
    }

    /// In a valid network, it does not matter whether the registers have
    /// their turn before or after the constants: the nodes end up the same.
    pub proof fn lemma_registers_first(self, rising: bool, registers: nat)
        requires
            self.valid(),
            registers <= self.registers.len(),
        ensures
            self.underway(drive_registers(self.captured(), rising, registers), 0, registers),
            drive_registers(
                drive_constants(self.constants, self.captured(), rising, self.constants.len()),
                rising,
                registers,
            ) == drive_constants(
                self.constants,
                drive_registers(self.captured(), rising, registers),
                rising,
                self.constants.len(),
            ),
        decreases registers,
    {
        if registers == 0 {
            self.lemma_underway_at_start();
        } else {
            let served = (registers - 1) as nat;
            self.lemma_registers_first(rising, served);
            let before = drive_registers(self.captured(), rising, served);
            self.lemma_register_served(before, 0, served, rising);
            self.lemma_register_passes_constants(before, self.constants.len(), served, rising);
        }
    }
}

} // verus!
