//! Topology validation: what makes the wiring of a network well formed, and
//! the checks that decide it.

pub mod loops;

use vstd::prelude::*;
use crate::logic::constant::Constant;
use crate::logic::gate::Gate;
use crate::logic::output::{Output, Slot};
use crate::logic::register::Register;

verus! {

/// Why a network cannot be built. Each error names the first offender that
/// a scan of the nodes comes upon: constants first, then registers, then
/// gates, each by rising index, and the ends of a wiring from left to right.
#[derive(Copy, Clone, Debug, PartialEq, Eq, Structural)]
pub enum TopologyError {
    /// An end of wiring arrives at this cell, and the cell does not exist.
    Dangling(Slot),
    /// Two or more ends of wiring arrive at this cell.
    DoubleDriver(Slot),
    /// A gate feeds a combinational loop: this is the lowest index of one
    /// that does.
    Loop(usize),
    /// The bit tracker at this index observes a node that does not exist,
    /// and no bit tracker at a lower index does.
    DanglingTracker(usize),
    /// The value tracker at this index names a bit tracker that does not
    /// exist, and no value tracker at a lower index does.
    DanglingValueTracker(usize),
}

/// The first among the first `count` of the given findings that is one.
pub open spec fn first_some<T>(items: Seq<Option<T>>, count: nat) -> Option<T>
    decreases count,
{
    if count == 0 {
        None
    } else {
        match first_some(items, (count - 1) as nat) {
            Some(item) => Some(item),
            None => if count - 1 < items.len() {
                items[count - 1]
            } else {
                None
            },
        }
    }
}

/// A finding with none before it is the first.
pub proof fn lemma_first_some_found<T>(items: Seq<Option<T>>, index: int, count: nat)
    requires
        0 <= index < count <= items.len(),
        items[index] is Some,
        forall|earlier: int| 0 <= earlier < index ==> (#[trigger] items[earlier]) is None,
    ensures
        first_some(items, count) == items[index],
    decreases count,
{
    if count - 1 > index {
        lemma_first_some_found(items, index, (count - 1) as nat);
    } else {
        lemma_first_some_missing(items, index as nat);
    }
}

/// Where nothing is found there is no first finding.
pub proof fn lemma_first_some_missing<T>(items: Seq<Option<T>>, count: nat)
    requires
        count <= items.len(),
        forall|earlier: int| 0 <= earlier < count ==> (#[trigger] items[earlier]) is None,
    ensures
        first_some(items, count) is None,
    decreases count,
{
    if count > 0 {
        lemma_first_some_missing(items, (count - 1) as nat);
    }
}

/// The first finding has a place, and there is none before it.
pub proof fn lemma_first_some_place<T>(items: Seq<Option<T>>, count: nat) -> (index: int)
    requires
        count <= items.len(),
        first_some(items, count) is Some,
    ensures
        0 <= index < count,
        items[index] == first_some(items, count),
        forall|earlier: int| 0 <= earlier < index ==> (#[trigger] items[earlier]) is None,
    decreases count,
{
    if first_some(items, (count - 1) as nat) is Some {
        lemma_first_some_place(items, (count - 1) as nat)
    } else {
        lemma_first_some_nowhere(items, (count - 1) as nat);
        count - 1
    }
}

/// Where there is no first finding nothing is found.
pub proof fn lemma_first_some_nowhere<T>(items: Seq<Option<T>>, count: nat)
    requires
        count <= items.len(),
        first_some(items, count) is None,
    ensures
        forall|earlier: int| 0 <= earlier < count ==> (#[trigger] items[earlier]) is None,
    decreases count,
{
    if count > 0 {
        lemma_first_some_nowhere(items, (count - 1) as nat);
    }
}

/// How many ends of the first `count` of the given wirings arrive at `slot`.
pub open spec fn wiring_fanin(wiring: Seq<Output>, slot: Slot, count: nat) -> nat
    decreases count,
{
    if count == 0 {
        0
    } else {
        let index = count - 1;
        let rest = wiring_fanin(wiring, slot, index as nat);
        if index < wiring.len() {
            rest + wiring[index].fanin(slot)
        } else {
            rest
        }
    }
}

/// The cells that an end of one of the first `count` of the given wirings
/// arrives at.
pub open spec fn ends_of(wiring: Seq<Output>, count: nat) -> Set<Slot> {
    Set::new(|slot: Slot| wiring_fanin(wiring, slot, count) >= 1)
}

/// One for a cell that is among `taken`, else zero.
pub open spec fn held(taken: Set<Slot>, slot: Slot) -> nat {
    if taken.contains(slot) {
        1
    } else {
        0
    }
}

impl Output {
    /// The cells that an end of this wiring arrives at.
    pub open spec fn ends(self) -> Set<Slot> {
        Set::new(|slot: Slot| self.fanin(slot) >= 1)
    }

    /// The first end of this wiring, from left to right, that arrives at a
    /// cell that does not exist in a network of that many registers and
    /// gates.
    pub open spec fn dangling(self, registers: nat, gates: nat) -> Option<Slot>
        decreases self,
    {
        match self {
            Output::Register(index) => if index < registers {
                None
            } else {
                Some(Slot::Register(index))
            },
            Output::Gate(index, right) => if index < gates {
                None
            } else {
                Some(Slot::Gate(index, right))
            },
            Output::Splitter(left, right) => match left.dangling(registers, gates) {
                Some(slot) => Some(slot),
                None => right.dangling(registers, gates),
            },
        }
    }

    /// The first end of this wiring, from left to right, that arrives at a
    /// cell that is taken: one among `taken`, or one that an end further
    /// left arrives at.
    pub open spec fn clash(self, taken: Set<Slot>) -> Option<Slot>
        decreases self,
    {
        match self {
            Output::Register(index) => if taken.contains(Slot::Register(index)) {
                Some(Slot::Register(index))
            } else {
                None
            },
            Output::Gate(index, right) => if taken.contains(Slot::Gate(index, right)) {
                Some(Slot::Gate(index, right))
            } else {
                None
            },
            Output::Splitter(left, right) => match left.clash(taken) {
                Some(slot) => Some(slot),
                None => right.clash(taken.union(left.ends())),
            },
        }
    }

    /// A wiring has a dangling end if and only if it does not stay inside
    /// the network, and the end that is named arrives at a cell that does
    /// not exist.
    pub proof fn lemma_dangling(self, registers: nat, gates: nat)
        ensures
            match self.dangling(registers, gates) {
                Some(slot) => self.fanin(slot) >= 1 && !slot.in_bounds(registers, gates)
                    && !self.in_bounds(registers, gates),
                None => self.in_bounds(registers, gates),
            },
        decreases self,
    {
        match self {
            Output::Register(_) => {},
            Output::Gate(_, _) => {},
            Output::Splitter(left, right) => {
                left.lemma_dangling(registers, gates);
                right.lemma_dangling(registers, gates);
            },
        }
    }

    /// A wiring clashes if and only if two ends arrive at one cell or an
    /// end arrives at a cell that is taken, and the cell that is named is
    /// such a cell.
    pub proof fn lemma_clash(self, taken: Set<Slot>)
        ensures
            match self.clash(taken) {
                Some(slot) => self.fanin(slot) + held(taken, slot) >= 2,
                None => forall|slot: Slot| self.fanin(slot) + #[trigger] held(taken, slot) <= 1,
            },
        decreases self,
    {
        match self {
            Output::Register(_) => {},
            Output::Gate(_, _) => {},
            Output::Splitter(left, right) => {
                left.lemma_clash(taken);
                let more = taken.union(left.ends());
                right.lemma_clash(more);
                if left.clash(taken) is None {
                    match right.clash(more) {
                        Some(slot) => {
                            assert(left.fanin(slot) + held(taken, slot) <= 1);
                        },
                        None => {
                            assert forall|slot: Slot|
                                self.fanin(slot) + #[trigger] held(taken, slot) <= 1 by {
                                assert(right.fanin(slot) + held(more, slot) <= 1);
                            }
                        },
                    }
                }
            },
        }
    }
}

/// For each of the given wirings its first dangling end.
pub open spec fn dangling_ends(wiring: Seq<Output>, registers: nat, gates: nat) -> Seq<Option<Slot>> {
    Seq::new(wiring.len(), |index: int| wiring[index].dangling(registers, gates))
}

/// The first dangling end among the given wirings.
pub open spec fn first_dangling(wiring: Seq<Output>, registers: nat, gates: nat) -> Option<Slot> {
    first_some(dangling_ends(wiring, registers, gates), wiring.len())
}

/// For each of the given wirings the first of its ends that arrives at a
/// cell that is among `taken` or that an earlier end arrives at, of this
/// wiring or of one before it.
pub open spec fn clashes(wiring: Seq<Output>, taken: Set<Slot>) -> Seq<Option<Slot>> {
    Seq::new(
        wiring.len(),
        |index: int| wiring[index].clash(taken.union(ends_of(wiring, index as nat))),
    )
}

/// The first end among the given wirings that arrives at a cell that is
/// among `taken` or that an earlier end arrives at.
pub open spec fn first_clash(wiring: Seq<Output>, taken: Set<Slot>) -> Option<Slot> {
    first_some(clashes(wiring, taken), wiring.len())
}

/// Whether a value driven into `output` can pass through `depth` gates in a
/// row, each feeding the next, where `wiring` is the wiring of the gates.
pub open spec fn carries(wiring: Seq<Output>, output: Output, depth: nat) -> bool
    decreases depth, output,
{
    if depth == 0 {
        true
    } else {
        match output {
            Output::Register(_) => false,
            Output::Gate(index, _) => index < wiring.len() && carries(
                wiring,
                wiring[index as int],
                (depth - 1) as nat,
            ),
            Output::Splitter(left, right) => carries(wiring, *left, depth) || carries(
                wiring,
                *right,
                depth,
            ),
        }
    }
}

/// For each gate its index if its result can pass through as many gates in
/// a row as there are, which it can only by passing through one of them
/// twice.
pub open spec fn loop_feeders(wiring: Seq<Output>) -> Seq<Option<usize>> {
    Seq::new(
        wiring.len(),
        |index: int|
            if carries(wiring, wiring[index], wiring.len()) {
                Some(index as usize)
            } else {
                None
            },
    )
}

/// The first gate that feeds a combinational loop.
pub open spec fn first_loop(wiring: Seq<Output>) -> Option<usize> {
    first_some(loop_feeders(wiring), wiring.len())
}

/// Whether each of the given wirings arrives only at cells that exist in a
/// network of that many registers and gates.
pub open spec fn wiring_in_bounds(wiring: Seq<Output>, registers: nat, gates: nat) -> bool {
    forall|index: int|
        0 <= index < wiring.len() ==> (#[trigger] wiring[index]).in_bounds(registers, gates)
}

/// An end of wiring that stays inside the network arrives at a cell that
/// exists.
pub proof fn lemma_end_in_bounds(output: Output, slot: Slot, registers: nat, gates: nat)
    requires
        output.in_bounds(registers, gates),
        output.fanin(slot) >= 1,
    ensures
        slot.in_bounds(registers, gates),
    decreases output,
{
    match output {
        Output::Register(_) => {},
        Output::Gate(_, _) => {},
        Output::Splitter(left, right) => {
            if left.fanin(slot) >= 1 {
                lemma_end_in_bounds(*left, slot, registers, gates);
            } else {
                lemma_end_in_bounds(*right, slot, registers, gates);
            }
        },
    }
}

/// A sum of fan-ins grows with the number of wirings counted.
pub proof fn lemma_fanin_grows(wiring: Seq<Output>, slot: Slot, fewer: nat, more: nat)
    requires
        fewer <= more,
    ensures
        wiring_fanin(wiring, slot, fewer) <= wiring_fanin(wiring, slot, more),
    decreases more,
{
    if fewer < more {
        lemma_fanin_grows(wiring, slot, fewer, (more - 1) as nat);
    }
}

/// The fan-in of wirings in a row is that of the first ones plus that of the
/// rest.
pub proof fn lemma_fanin_joins(first: Seq<Output>, rest: Seq<Output>, slot: Slot, count: nat)
    requires
        count <= rest.len(),
    ensures
        wiring_fanin(first + rest, slot, first.len() + count) == wiring_fanin(
            first,
            slot,
            first.len(),
        ) + wiring_fanin(rest, slot, count),
    decreases count,
{
    if count == 0 {
        lemma_fanin_starts(first, rest, slot, first.len());
    } else {
        lemma_fanin_joins(first, rest, slot, (count - 1) as nat);
        assert((first + rest)[first.len() + count - 1] == rest[count - 1]);
    }
}

/// The fan-in of the first wirings of a row does not depend on what comes
/// after them.
pub proof fn lemma_fanin_starts(first: Seq<Output>, rest: Seq<Output>, slot: Slot, count: nat)
    requires
        count <= first.len(),
    ensures
        wiring_fanin(first + rest, slot, count) == wiring_fanin(first, slot, count),
    decreases count,
{
    if count > 0 {
        lemma_fanin_starts(first, rest, slot, (count - 1) as nat);
        assert((first + rest)[count - 1] == first[count - 1]);
    }
}

/// Wirings have a dangling end if and only if one of them does not stay
/// inside the network, and the end that is named arrives at a cell that does
/// not exist.
pub proof fn lemma_first_dangling(wiring: Seq<Output>, registers: nat, gates: nat)
    ensures
        match first_dangling(wiring, registers, gates) {
            Some(slot) => {
                &&& wiring_fanin(wiring, slot, wiring.len()) >= 1
                &&& !slot.in_bounds(registers, gates)
                &&& !wiring_in_bounds(wiring, registers, gates)
            },
            None => wiring_in_bounds(wiring, registers, gates),
        },
{
    let ends = dangling_ends(wiring, registers, gates);
    if first_dangling(wiring, registers, gates) is Some {
        let index = lemma_first_some_place(ends, wiring.len());
        let slot = ends[index]->0;
        wiring[index].lemma_dangling(registers, gates);
        lemma_fanin_grows(wiring, slot, (index + 1) as nat, wiring.len());
    } else {
        lemma_first_some_nowhere(ends, wiring.len());
        assert forall|index: int| 0 <= index < wiring.len() implies (
        #[trigger] wiring[index]).in_bounds(registers, gates) by {
            assert(ends[index] is None);
            wiring[index].lemma_dangling(registers, gates);
        }
    }
}

/// While no clash is found, no cell is arrived at twice.
pub proof fn lemma_no_clash_so_far(wiring: Seq<Output>, taken: Set<Slot>, count: nat, slot: Slot)
    requires
        count <= wiring.len(),
        forall|earlier: int| 0 <= earlier < count ==> (#[trigger] clashes(wiring, taken)[earlier]) is None,
    ensures
        wiring_fanin(wiring, slot, count) + held(taken, slot) <= 1,
    decreases count,
{
    if count > 0 {
        let index = count - 1;
        lemma_no_clash_so_far(wiring, taken, index as nat, slot);
        let before = taken.union(ends_of(wiring, index as nat));
        assert(clashes(wiring, taken)[index] is None);
        wiring[index].lemma_clash(before);
        assert(wiring[index].fanin(slot) + held(before, slot) <= 1);
    }
}

/// Wirings clash if and only if two ends arrive at one cell or an end
/// arrives at a cell that is taken, and the cell that is named is such a
/// cell.
pub proof fn lemma_first_clash(wiring: Seq<Output>, taken: Set<Slot>)
    ensures
        match first_clash(wiring, taken) {
            Some(slot) => wiring_fanin(wiring, slot, wiring.len()) + held(taken, slot) >= 2,
            None => forall|slot: Slot|
                wiring_fanin(wiring, slot, wiring.len()) + #[trigger] held(taken, slot) <= 1,
        },
{
    let found = clashes(wiring, taken);
    if first_clash(wiring, taken) is Some {
        let index = lemma_first_some_place(found, wiring.len());
        let slot = found[index]->0;
        let before = taken.union(ends_of(wiring, index as nat));
        wiring[index].lemma_clash(before);
        lemma_no_clash_so_far(wiring, taken, index as nat, slot);
        lemma_fanin_grows(wiring, slot, (index + 1) as nat, wiring.len());
    } else {
        lemma_first_some_nowhere(found, wiring.len());
        assert forall|slot: Slot|
            wiring_fanin(wiring, slot, wiring.len()) + #[trigger] held(taken, slot) <= 1 by {
            lemma_no_clash_so_far(wiring, taken, wiring.len(), slot);
        }
    }
}

/// The wiring of all nodes: that of the constants, then that of the
/// registers, then that of the gates, each by index.
pub fn wiring_of(constants: &Vec<Constant>, registers: &Vec<Register>, gates: &Vec<Gate>) -> (wiring:
    Vec<Output>)
    ensures
        wiring@ == Seq::new(constants@.len(), |index: int| constants@[index].output) + Seq::new(
            registers@.len(),
            |index: int| registers@[index].output,
        ) + Seq::new(gates@.len(), |index: int| gates@[index].output),
{
    let ghost constant_wiring = Seq::new(constants@.len(), |index: int| constants@[index].output);
    let ghost register_wiring = Seq::new(registers@.len(), |index: int| registers@[index].output);
    let mut wiring: Vec<Output> = Vec::new();
    let mut index: usize = 0;
    while index < constants.len()
        invariant
            index <= constants.len(),
            wiring@ == Seq::new(index as nat, |index: int| constants@[index].output),
        decreases constants.len() - index,
    {
        wiring.push(constants[index].output.clone());
        index += 1;
        assert(wiring@ =~= Seq::new(index as nat, |index: int| constants@[index].output));
    }
    let mut index: usize = 0;
    while index < registers.len()
        invariant
            index <= registers.len(),
            constant_wiring == Seq::new(constants@.len(), |index: int| constants@[index].output),
            wiring@ == constant_wiring + Seq::new(
                index as nat,
                |index: int| registers@[index].output,
            ),
        decreases registers.len() - index,
    {
        wiring.push(registers[index].output.clone());
        index += 1;
        assert(wiring@ =~= constant_wiring + Seq::new(
            index as nat,
            |index: int| registers@[index].output,
        ));
    }
    let mut index: usize = 0;
    while index < gates.len()
        invariant
            index <= gates.len(),
            constant_wiring == Seq::new(constants@.len(), |index: int| constants@[index].output),
            register_wiring == Seq::new(registers@.len(), |index: int| registers@[index].output),
            wiring@ == constant_wiring + register_wiring + Seq::new(
                index as nat,
                |index: int| gates@[index].output,
            ),
        decreases gates.len() - index,
    {
        wiring.push(gates[index].output.clone());
        index += 1;
        assert(wiring@ =~= constant_wiring + register_wiring + Seq::new(
            index as nat,
            |index: int| gates@[index].output,
        ));
    }
    wiring
}

/// The wiring of the gates, by index.
pub fn wiring_of_gates(gates: &Vec<Gate>) -> (wiring: Vec<Output>)
    ensures
        wiring@ == Seq::new(gates@.len(), |index: int| gates@[index].output),
{
    let mut wiring: Vec<Output> = Vec::new();
    let mut index: usize = 0;
    while index < gates.len()
        invariant
            index <= gates.len(),
            wiring@ == Seq::new(index as nat, |index: int| gates@[index].output),
        decreases gates.len() - index,
    {
        wiring.push(gates[index].output.clone());
        index += 1;
        assert(wiring@ =~= Seq::new(index as nat, |index: int| gates@[index].output));
    }
    wiring
}

/// The first end of `output` that arrives at a cell that does not exist in
/// a network of that many registers and gates.
pub fn dangling_end(output: &Output, registers: usize, gates: usize) -> (result: Option<Slot>)
    ensures
        result == output.dangling(registers as nat, gates as nat),
    decreases output,
{
    match output {
        Output::Register(index) => {
            if *index < registers {
                None
            } else {
                Some(Slot::Register(*index))
            }
        },
        Output::Gate(index, right) => {
            if *index < gates {
                None
            } else {
                Some(Slot::Gate(*index, *right))
            }
        },
        Output::Splitter(left, right) => {
            match dangling_end(left, registers, gates) {
                Some(slot) => Some(slot),
                None => dangling_end(right, registers, gates),
            }
        },
    }
}

/// The first end of the given wirings that arrives at a cell that does not
/// exist in a network of that many registers and gates.
pub fn find_dangling(wiring: &Vec<Output>, registers: usize, gates: usize) -> (result: Option<Slot>)
    ensures
        result == first_dangling(wiring@, registers as nat, gates as nat),
{
    let ghost ends = dangling_ends(wiring@, registers as nat, gates as nat);
    let mut index: usize = 0;
    while index < wiring.len()
        invariant
            index <= wiring.len(),
            ends == dangling_ends(wiring@, registers as nat, gates as nat),
            forall|earlier: int| 0 <= earlier < index ==> (#[trigger] ends[earlier]) is None,
        decreases wiring.len() - index,
    {
        let found = dangling_end(&wiring[index], registers, gates);
        assert(found == ends[index as int]);
        if found.is_some() {
            proof {
                lemma_first_some_found(ends, index as int, wiring@.len());
            }
            return found;
        }
        index += 1;
    }
    proof {
        lemma_first_some_missing(ends, wiring@.len());
    }
    None
}

/// The cells that an end of wiring has been seen to arrive at.
pub struct Claims {
    registers: Vec<bool>,
    left: Vec<bool>,
    right: Vec<bool>,
}

impl Claims {
    /// How many registers the record has room for.
    pub closed spec fn registers(&self) -> nat {
        self.registers@.len()
    }

    /// How many gates the record has room for.
    pub closed spec fn gates(&self) -> nat {
        self.left@.len()
    }

    /// Whether the record is of one size throughout.
    pub closed spec fn wf(&self) -> bool {
        self.left@.len() == self.right@.len()
    }

    /// Whether `slot` has been claimed.
    pub closed spec fn holds(&self, slot: Slot) -> bool {
        match slot {
            Slot::Register(index) => index < self.registers@.len() && self.registers@[index as int],
            Slot::Gate(index, right) => if right {
                index < self.right@.len() && self.right@[index as int]
            } else {
                index < self.left@.len() && self.left@[index as int]
            },
        }
    }

    /// The cells that have been claimed.
    pub open spec fn taken(&self) -> Set<Slot> {
        Set::new(|slot: Slot| self.holds(slot))
    }

    /// A record for a network of that many registers and gates, with no
    /// cell claimed.
    pub fn new(registers: usize, gates: usize) -> (result: Self)
        ensures
            result.wf(),
            result.registers() == registers,
            result.gates() == gates,
            result.taken() == Set::<Slot>::empty(),
    {
        let result = Claims {
            registers: vec![false; registers],
            left: vec![false; gates],
            right: vec![false; gates],
        };
        assert(result.taken() =~= Set::<Slot>::empty());
        result
    }

    /// Claims the cells that the ends of `output` arrive at, from left to
    /// right, up to the first that is taken, which is returned.
    pub fn claim(&mut self, output: &Output) -> (result: Option<Slot>)
        requires
            old(self).wf(),
            output.in_bounds(old(self).registers(), old(self).gates()),
        ensures
            final(self).wf(),
            final(self).registers() == old(self).registers(),
            final(self).gates() == old(self).gates(),
            result == output.clash(old(self).taken()),
            result is None ==> final(self).taken() == old(self).taken().union(output.ends()),
        decreases output,
    {
        match output {
            Output::Register(index) => {
                if self.registers[*index] {
                    return Some(Slot::Register(*index));
                }
                self.registers[*index] = true;
                assert(self.taken() =~= old(self).taken().union(output.ends()));
                None
            },
            Output::Gate(index, right) => {
                if *right {
                    if self.right[*index] {
                        return Some(Slot::Gate(*index, true));
                    }
                    self.right[*index] = true;
                } else {
                    if self.left[*index] {
                        return Some(Slot::Gate(*index, false));
                    }
                    self.left[*index] = true;
                }
                assert(self.taken() =~= old(self).taken().union(output.ends()));
                None
            },
            Output::Splitter(left, right) => {
                let first = self.claim(left);
                if first.is_some() {
                    return first;
                }
                let second = self.claim(right);
                assert(second is None ==> self.taken() =~= old(self).taken().union(output.ends()));
                second
            },
        }
    }

    /// Claims the cells that the ends of the given wirings arrive at, one
    /// wiring after the other, up to the first that is taken, which is
    /// returned.
    pub fn claim_all(&mut self, wiring: &Vec<Output>) -> (result: Option<Slot>)
        requires
            old(self).wf(),
            wiring_in_bounds(wiring@, old(self).registers(), old(self).gates()),
        ensures
            final(self).wf(),
            final(self).registers() == old(self).registers(),
            final(self).gates() == old(self).gates(),
            result == first_clash(wiring@, old(self).taken()),
            result is None ==> final(self).taken() == old(self).taken().union(
                ends_of(wiring@, wiring@.len()),
            ),
    {
        let ghost taken = self.taken();
        let ghost found = clashes(wiring@, taken);
        let mut index: usize = 0;
        assert(self.taken() =~= taken.union(ends_of(wiring@, 0)));
        while index < wiring.len()
            invariant
                index <= wiring.len(),
                self.wf(),
                self.registers() == old(self).registers(),
                self.gates() == old(self).gates(),
                wiring_in_bounds(wiring@, self.registers(), self.gates()),
                taken == old(self).taken(),
                found == clashes(wiring@, taken),
                self.taken() == taken.union(ends_of(wiring@, index as nat)),
                forall|earlier: int| 0 <= earlier < index ==> (#[trigger] found[earlier]) is None,
            decreases wiring.len() - index,
        {
            assert(wiring@[index as int].in_bounds(self.registers(), self.gates()));
            let clash = self.claim(&wiring[index]);
            assert(clash == found[index as int]);
            if clash.is_some() {
                proof {
                    lemma_first_some_found(found, index as int, wiring@.len());
                }
                return clash;
            }
            assert(self.taken() =~= taken.union(ends_of(wiring@, (index + 1) as nat)));
            index += 1;
        }
        proof {
            lemma_first_some_missing(found, wiring@.len());
        }
        None
    }
}

/// Whether a value driven into `output` can pass through one gate more
/// than the depth that `deep` records for each gate.
fn passes(
    output: &Output,
    deep: &Vec<bool>,
    Ghost(wiring): Ghost<Seq<Output>>,
    Ghost(depth): Ghost<nat>,
) -> (result: bool)
    requires
        deep@.len() == wiring.len(),
        forall|gate: int|
            0 <= gate < wiring.len() ==> #[trigger] deep@[gate] == carries(wiring, wiring[gate], depth),
    ensures
        result == carries(wiring, *output, depth + 1),
    decreases output,
{
    match output {
        Output::Register(_) => false,
        Output::Gate(index, _) => *index < deep.len() && deep[*index],
        Output::Splitter(left, right) => {
            passes(left, deep, Ghost(wiring), Ghost(depth)) || passes(
                right,
                deep,
                Ghost(wiring),
                Ghost(depth),
            )
        },
    }
}

/// The first of the gates with the given wiring that feeds a combinational
/// loop.
pub fn find_loop(wiring: &Vec<Output>) -> (result: Option<usize>)
    ensures
        result == first_loop(wiring@),
{
    let count = wiring.len();
    let mut deep: Vec<bool> = vec![true; count];
    let mut depth: usize = 0;
    while depth < count
        invariant
            depth <= count,
            count == wiring@.len(),
            deep@.len() == count,
            forall|gate: int|
                0 <= gate < count ==> #[trigger] deep@[gate] == carries(
                    wiring@,
                    wiring@[gate],
                    depth as nat,
                ),
        decreases count - depth,
    {
        let mut next: Vec<bool> = Vec::new();
        let mut gate: usize = 0;
        while gate < count
            invariant
                gate <= count,
                count == wiring@.len(),
                deep@.len() == count,
                next@.len() == gate,
                forall|gate: int|
                    0 <= gate < count ==> #[trigger] deep@[gate] == carries(
                        wiring@,
                        wiring@[gate],
                        depth as nat,
                    ),
                forall|earlier: int|
                    0 <= earlier < gate ==> #[trigger] next@[earlier] == carries(
                        wiring@,
                        wiring@[earlier],
                        (depth + 1) as nat,
                    ),
            decreases count - gate,
        {
            let through = passes(&wiring[gate], &deep, Ghost(wiring@), Ghost(depth as nat));
            next.push(through);
            gate += 1;
        }
        deep = next;
        depth += 1;
    }
    let ghost feeders = loop_feeders(wiring@);
    let mut gate: usize = 0;
    while gate < count
        invariant
            gate <= count,
            count == wiring@.len(),
            deep@.len() == count,
            feeders == loop_feeders(wiring@),
            forall|gate: int|
                0 <= gate < count ==> #[trigger] deep@[gate] == carries(
                    wiring@,
                    wiring@[gate],
                    count as nat,
                ),
            forall|earlier: int| 0 <= earlier < gate ==> (#[trigger] feeders[earlier]) is None,
        decreases count - gate,
    {
        if deep[gate] {
            proof {
                lemma_first_some_found(feeders, gate as int, count as nat);
            }
            return Some(gate);
        }
        gate += 1;
    }
    proof {
        lemma_first_some_missing(feeders, count as nat);
    }
    None
}

} // verus!
