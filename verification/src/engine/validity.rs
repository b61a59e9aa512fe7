//! What the defects of a topology mean, and what validity depends on.

use vstd::prelude::*;
use super::network::Network;
use crate::logic::output::Slot;
use crate::topology::{
    first_clash, first_dangling, first_loop, held, lemma_fanin_joins, lemma_first_clash,
    lemma_first_dangling, lemma_first_some_nowhere, lemma_first_some_place, loop_feeders,
    wiring_fanin, wiring_in_bounds,
};

verus! {

impl Network {
    /// The fan-in of a cell over all nodes is its fan-in over the wiring of
    /// all nodes in a row.
    pub proof fn lemma_fanin_of_wiring(self, slot: Slot)
        ensures
            self.fanin(slot) == wiring_fanin(self.wiring(), slot, self.wiring().len()),
    {
        let front = self.constant_wiring() + self.register_wiring();
        lemma_fanin_joins(front, self.gate_wiring(), slot, self.gates.len());
        lemma_fanin_joins(self.constant_wiring(), self.register_wiring(), slot, self.registers.len());
    }

    /// All wiring stays inside the network if and only if the wiring of
    /// every node does.
    pub proof fn lemma_wiring_in_bounds(self)
        ensures
            self.in_bounds() <==> wiring_in_bounds(
                self.wiring(),
                self.registers.len(),
                self.gates.len(),
            ),
    {
        let wiring = self.wiring();
        let constants = self.constants.len() as int;
        let registers = self.registers.len() as int;
        if self.in_bounds() {
            assert forall|index: int| 0 <= index < wiring.len() implies (
            #[trigger] wiring[index]).in_bounds(self.registers.len(), self.gates.len()) by {
                if index < constants {
                    assert(wiring[index] == self.constants[index].output);
                } else if index < constants + registers {
                    assert(wiring[index] == self.registers[index - constants].output);
                } else {
                    assert(wiring[index] == self.gates[index - constants - registers].output);
                }
            }
        }
        if wiring_in_bounds(wiring, self.registers.len(), self.gates.len()) {
            assert forall|index: int| 0 <= index < self.constants.len() implies (
            #[trigger] self.constants[index]).output.in_bounds(
                self.registers.len(),
                self.gates.len(),
            ) by {
                assert(wiring[index] == self.constants[index].output);
            }
            assert forall|index: int| 0 <= index < self.registers.len() implies (
            #[trigger] self.registers[index]).output.in_bounds(
                self.registers.len(),
                self.gates.len(),
            ) by {
                assert(wiring[constants + index] == self.registers[index].output);
            }
            assert forall|index: int| 0 <= index < self.gates.len() implies (
            #[trigger] self.gates[index]).output.in_bounds(self.registers.len(), self.gates.len()) by {
                assert(wiring[constants + registers + index] == self.gates[index].output);
            }
        }
    }

    /// A topology is well formed if and only if it has no defect, and a
    /// defect says of the topology what its name says.
    pub proof fn lemma_defect(self)
        requires
            self.gates.len() <= usize::MAX,
        ensures
            self.defect() is None <==> self.valid(),
            self.defect() matches Some(error) ==> self.flawed(error),
    {
        let wiring = self.wiring();
        let loops = loop_feeders(self.gate_wiring());
        self.lemma_wiring_in_bounds();
        lemma_first_dangling(wiring, self.registers.len(), self.gates.len());
        lemma_first_clash(wiring, Set::empty());
        assert forall|slot: Slot| #[trigger]
            self.fanin(slot) == wiring_fanin(wiring, slot, wiring.len()) + held(Set::empty(), slot) by {
            self.lemma_fanin_of_wiring(slot);
        }
        if first_dangling(wiring, self.registers.len(), self.gates.len()) is None {
            if first_clash(wiring, Set::empty()) is Some {
                let slot = first_clash(wiring, Set::empty())->0;
                assert(self.fanin(slot) >= 2);
            } else {
                assert(self.single_drivers()) by {
                    assert forall|slot: Slot| #[trigger] self.fanin(slot) <= 1 by {
                        assert(wiring_fanin(wiring, slot, wiring.len()) + held(Set::empty(), slot)
                            <= 1);
                    }
                }
                if first_loop(self.gate_wiring()) is Some {
                    let index = lemma_first_some_place(loops, self.gates.len());
                    assert(self.feeds_loop(index));
                    assert forall|earlier: int| 0 <= earlier < index implies !self.feeds_loop(
                        earlier,
                    ) by {
                        assert(loops[earlier] is None);
                    }
                } else {
                    lemma_first_some_nowhere(loops, self.gates.len());
                    assert forall|index: int| !#[trigger] self.feeds_loop(index) by {
                        if 0 <= index < self.gates.len() {
                            assert(loops[index] is None);
                        }
                    }
                }
            }
        } else {
            let slot = first_dangling(wiring, self.registers.len(), self.gates.len())->0;
            self.lemma_fanin_of_wiring(slot);
        }
    }

    /// A valid network stays valid while only levels, flags and the cycle
    /// count change.
    pub proof fn lemma_rewired(self, other: Network)
        requires
            self.valid(),
            other.nodes().same_wiring(self.nodes()),
            other.constants == self.constants,
        ensures
            other.valid(),
    {
        assert(other.gate_wiring() =~= self.gate_wiring());
        assert(other.register_wiring() =~= self.register_wiring());
        assert(other.constant_wiring() =~= self.constant_wiring());
        assert forall|slot: Slot| #[trigger] other.fanin(slot) <= 1 by {
            assert(self.fanin(slot) <= 1);
        }
        assert forall|index: int| !#[trigger] other.feeds_loop(index) by {
            assert(!self.feeds_loop(index));
        }
        assert forall|index: int| 0 <= index < other.registers.len() implies (
        #[trigger] other.registers[index]).output.in_bounds(
            other.registers.len(),
            other.gates.len(),
        ) by {
            assert(self.registers[index].output.in_bounds(self.registers.len(), self.gates.len()));
        }
        assert forall|index: int| 0 <= index < other.gates.len() implies (
        #[trigger] other.gates[index]).output.in_bounds(other.registers.len(), other.gates.len()) by {
            assert(self.gates[index].output.in_bounds(self.registers.len(), self.gates.len()));
        }
    }
}

} // verus!
