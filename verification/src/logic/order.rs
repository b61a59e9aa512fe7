//! Why the order of deliveries does not matter in a network where no cell
//! is driven twice.

use vstd::prelude::*;
use super::cascade::{
    lemma_cascade, lemma_completion, lemma_left_branch, lemma_pending_bound, lemma_right_branch,
};
use super::logic::LogicState;
use super::nodes::Nodes;
use super::output::{Output, Slot};

verus! {

impl Output {
    /// How many ends and splitters this wiring is made of.
    pub open spec fn size(self) -> nat
        decreases self,
    {
        match self {
            Output::Splitter(left, right) => 1 + left.size() + right.size(),
            _ => 1,
        }
    }

    /// What the delivery of `state` to this end of wiring does to the cell
    /// it arrives at, and to a gate whose pair of inputs the delivery
    /// completes, before anything is driven on.
    pub open spec fn lands(self, nodes: Nodes, rising: bool, state: LogicState) -> Nodes
        recommends
            !(self is Splitter),
    {
        match self {
            Output::Register(index) => nodes.latch(index, rising, state),
            Output::Gate(index, right) => {
                let fed = nodes.feed(index, right, state);
                if fed.gates[index as int].both_driven() {
                    fed.settle(index)
                } else {
                    fed
                }
            },
            Output::Splitter(_, _) => nodes,
        }
    }

    /// The wiring that the delivery of `state` to this end of wiring drives
    /// on into, and the level it drives, if it completes the pair of inputs
    /// of a gate.
    pub open spec fn onward(self, nodes: Nodes, state: LogicState) -> Option<(Output, LogicState)>
        recommends
            !(self is Splitter),
    {
        match self {
            Output::Gate(index, right) => {
                let gate = nodes.gates[index as int].fed(right, state);
                if gate.both_driven() {
                    Some((gate.output, gate.evaluation()))
                } else {
                    None
                }
            },
            _ => None,
        }
    }

    /// Whether this end and `other` arrive at different nodes.
    pub open spec fn apart_from(self, other: Output) -> bool
        recommends
            !(self is Splitter),
            !(other is Splitter),
    {
        match (self, other) {
            (Output::Register(mine), Output::Register(theirs)) => mine != theirs,
            (Output::Gate(mine, _), Output::Gate(theirs, _)) => mine != theirs,
            _ => true,
        }
    }
}

/// A delivery to an end of wiring is what lands at the cell, and then the
/// cascade that is driven on, if any. In a network that is ready for the
/// delivery, what is driven on finds the network ready, with one gate fewer
/// waiting, and accounts for what the delivery accounted for.
pub proof fn lemma_end_delivery(end: Output, nodes: Nodes, rising: bool, state: LogicState)
    requires
        !(end is Splitter),
        end.ready(nodes),
    ensures
        ({
            let landed = end.lands(nodes, rising, state);
            &&& landed.same_wiring(nodes)
            &&& landed.wired()
            &&& match end.onward(nodes, state) {
                Some((wiring, level)) => {
                    &&& end.deliver(nodes, rising, state) == wiring.deliver(landed, rising, level)
                    &&& wiring.ready(landed)
                    &&& landed.pending() + 1 == nodes.pending()
                    &&& forall|slot: Slot|
                        wiring.fanin(slot) + #[trigger] landed.potential(slot) == end.fanin(slot)
                            + nodes.potential(slot)
                },
                None => {
                    &&& end.deliver(nodes, rising, state) == landed
                    &&& landed.pending() == nodes.pending()
                    &&& forall|slot: Slot| #[trigger]
                        landed.potential(slot) == end.fanin(slot) + nodes.potential(slot)
                },
            }
        }),
{
    let landed = end.lands(nodes, rising, state);
    let count = nodes.gates.len();
    lemma_pending_bound(nodes.gates, count);
    lemma_cascade(end, nodes, rising, state, count);
    match end {
        Output::Register(index) => {},
        Output::Gate(index, right) => {
            let fed = nodes.feed(index, right, state);
            if fed.gates[index as int].both_driven() {
                lemma_completion(nodes, index, right, state);
                let wiring = nodes.gates[index as int].output;
                let level = landed.gates[index as int].state;
                lemma_pending_bound(landed.gates, count);
                lemma_cascade(wiring, landed, rising, level, count);
                lemma_cascade(wiring, landed, rising, level, (count - 1) as nat);
            } else {
                let target = Slot::Gate(index, right);
                assert(end.fanin(target) + nodes.potential(target) <= 1);
                assert(!nodes.driven(target));
                super::cascade::lemma_pending_step(nodes.gates, fed.gates, index as int, count);
                assert(super::cascade::alike_but_at(nodes.gates, fed.gates, index as int));
            }
        },
        Output::Splitter(_, _) => {},
    }
}

/// Deliveries to ends at different nodes land in either order alike, and
/// neither changes what the other drives on.
pub proof fn lemma_ends_apart(
    first: Output,
    level: LogicState,
    second: Output,
    other: LogicState,
    nodes: Nodes,
    rising: bool,
)
    requires
        !(first is Splitter),
        !(second is Splitter),
        first.apart_from(second),
        first.in_bounds(nodes.registers.len(), nodes.gates.len()),
        second.in_bounds(nodes.registers.len(), nodes.gates.len()),
    ensures
        second.lands(first.lands(nodes, rising, level), rising, other) == first.lands(
            second.lands(nodes, rising, other),
            rising,
            level,
        ),
        second.onward(first.lands(nodes, rising, level), other) == second.onward(nodes, other),
        first.onward(second.lands(nodes, rising, other), level) == first.onward(nodes, level),
{
    let one = first.lands(nodes, rising, level);
    let two = second.lands(nodes, rising, other);
    let both = second.lands(one, rising, other);
    let swapped = first.lands(two, rising, level);
    assert(both.registers =~= swapped.registers);
    assert(both.gates =~= swapped.gates);
}

/// Deliveries to the two inputs of one gate end up alike in either order.
pub proof fn lemma_ends_at_one_gate(
    index: usize,
    left: LogicState,
    right: LogicState,
    nodes: Nodes,
    rising: bool,
)
    requires
        Output::Splitter(
            Box::new(Output::Gate(index, false)),
            Box::new(Output::Gate(index, true)),
        ).ready(nodes),
    ensures
        Output::Gate(index, true).deliver(
            Output::Gate(index, false).deliver(nodes, rising, left),
            rising,
            right,
        ) == Output::Gate(index, false).deliver(
            Output::Gate(index, true).deliver(nodes, rising, right),
            rising,
            left,
        ),
{
    let first = Output::Gate(index, false);
    let second = Output::Gate(index, true);
    let both = Output::Splitter(Box::new(first), Box::new(second));
    assert(both.fanin(Slot::Gate(index, false)) == first.fanin(Slot::Gate(index, false))
        + second.fanin(Slot::Gate(index, false)));
    assert(both.fanin(Slot::Gate(index, true)) == first.fanin(Slot::Gate(index, true))
        + second.fanin(Slot::Gate(index, true)));
    assert(both.fanin(Slot::Gate(index, false)) + nodes.potential(Slot::Gate(index, false)) <= 1);
    assert(both.fanin(Slot::Gate(index, true)) + nodes.potential(Slot::Gate(index, true)) <= 1);
    assert(!nodes.driven(Slot::Gate(index, false)));
    assert(!nodes.driven(Slot::Gate(index, true)));
    lemma_left_branch(first, second, nodes);
    assert(second.ready(nodes)) by {
        assert forall|slot: Slot| second.fanin(slot) + #[trigger] nodes.potential(slot) <= 1 by {
            assert(both.fanin(slot) + nodes.potential(slot) <= 1);
        }
    }
    lemma_end_delivery(first, nodes, rising, left);
    lemma_end_delivery(second, nodes, rising, right);
    let one = first.deliver(nodes, rising, left);
    let two = second.deliver(nodes, rising, right);
    assert(one == nodes.feed(index, false, left));
    assert(two == nodes.feed(index, true, right));
    assert(second.ready(one)) by {
        assert forall|slot: Slot| second.fanin(slot) + #[trigger] one.potential(slot) <= 1 by {
            assert(both.fanin(slot) + nodes.potential(slot) <= 1);
        }
    }
    assert(first.ready(two)) by {
        assert forall|slot: Slot| first.fanin(slot) + #[trigger] two.potential(slot) <= 1 by {
            assert(both.fanin(slot) + nodes.potential(slot) <= 1);
        }
    }
    lemma_end_delivery(second, one, rising, right);
    lemma_end_delivery(first, two, rising, left);
    assert(second.lands(one, rising, right).gates =~= first.lands(two, rising, left).gates);
}

/// Nodes are ready for two wirings if they are wired like nodes that are
/// ready for two wirings that stay inside the network, and no cell is in for
/// more than one delivery.
pub proof fn lemma_ready_for_both(first: Output, second: Output, nodes: Nodes, wired: Nodes)
    requires
        nodes.same_wiring(wired),
        wired.wired(),
        first.in_bounds(wired.registers.len(), wired.gates.len()),
        second.in_bounds(wired.registers.len(), wired.gates.len()),
        forall|slot: Slot|
            first.fanin(slot) + second.fanin(slot) + #[trigger] nodes.potential(slot) <= 1,
    ensures
        Output::Splitter(Box::new(first), Box::new(second)).ready(nodes),
{
    assert forall|index: int| 0 <= index < nodes.gates.len() implies (
    #[trigger] nodes.gates[index]).output.in_bounds(nodes.registers.len(), nodes.gates.len()) by {
        assert(wired.gates[index].output.in_bounds(wired.registers.len(), wired.gates.len()));
    }
    let both = Output::Splitter(Box::new(first), Box::new(second));
    assert forall|slot: Slot| both.fanin(slot) + #[trigger] nodes.potential(slot) <= 1 by {
        assert(first.fanin(slot) + second.fanin(slot) + nodes.potential(slot) <= 1);
    }
}

/// Nodes that are ready for two wirings are ready for each, and for the two
/// the other way round.
pub proof fn lemma_ready_for_each(first: Output, second: Output, nodes: Nodes)
    requires
        Output::Splitter(Box::new(first), Box::new(second)).ready(nodes),
    ensures
        first.ready(nodes),
        second.ready(nodes),
        Output::Splitter(Box::new(second), Box::new(first)).ready(nodes),
        forall|slot: Slot|
            first.fanin(slot) + second.fanin(slot) + #[trigger] nodes.potential(slot) <= 1,
{
    let both = Output::Splitter(Box::new(first), Box::new(second));
    let swapped = Output::Splitter(Box::new(second), Box::new(first));
    assert forall|slot: Slot|
        first.fanin(slot) + second.fanin(slot) + #[trigger] nodes.potential(slot) <= 1 by {
        assert(both.fanin(slot) + nodes.potential(slot) <= 1);
    }
    assert forall|slot: Slot| swapped.fanin(slot) + #[trigger] nodes.potential(slot) <= 1 by {
        assert(first.fanin(slot) + second.fanin(slot) + nodes.potential(slot) <= 1);
    }
}

/// What two deliveries to ends at different nodes come to, in a network
/// that is ready for both: each is what lands and then what it drives on,
/// whichever comes first, and what is driven on finds the nodes ready for it
/// and for what is still to come.
pub proof fn lemma_ends_apart_ready(
    first: Output,
    level: LogicState,
    second: Output,
    other: LogicState,
    nodes: Nodes,
    rising: bool,
)
    requires
        !(first is Splitter),
        !(second is Splitter),
        first.apart_from(second),
        Output::Splitter(Box::new(first), Box::new(second)).ready(nodes),
    ensures
        ({
            let one = first.lands(nodes, rising, level);
            let two = second.lands(nodes, rising, other);
            let landed = second.lands(one, rising, other);
            &&& landed == first.lands(two, rising, level)
            &&& match first.onward(nodes, level) {
                Some((wiring, result)) => {
                    &&& first.deliver(nodes, rising, level) == wiring.deliver(one, rising, result)
                    &&& first.deliver(two, rising, level) == wiring.deliver(landed, rising, result)
                    &&& Output::Splitter(Box::new(wiring), Box::new(second)).ready(one)
                    &&& one.pending() < nodes.pending()
                    &&& landed.pending() < nodes.pending()
                },
                None => {
                    &&& first.deliver(nodes, rising, level) == one
                    &&& first.deliver(two, rising, level) == landed
                },
            }
            &&& match second.onward(nodes, other) {
                Some((branch, outcome)) => {
                    &&& second.deliver(nodes, rising, other) == branch.deliver(two, rising, outcome)
                    &&& second.deliver(one, rising, other) == branch.deliver(
                        landed,
                        rising,
                        outcome,
                    )
                    &&& Output::Splitter(Box::new(first), Box::new(branch)).ready(two)
                    &&& two.pending() < nodes.pending()
                    &&& landed.pending() < nodes.pending()
                },
                None => {
                    &&& second.deliver(nodes, rising, other) == two
                    &&& second.deliver(one, rising, other) == landed
                },
            }
            &&& match (first.onward(nodes, level), second.onward(nodes, other)) {
                (Some((wiring, _)), Some((branch, _))) => Output::Splitter(
                    Box::new(wiring),
                    Box::new(branch),
                ).ready(landed),
                _ => true,
            }
        }),
{
    let one = first.lands(nodes, rising, level);
    let two = second.lands(nodes, rising, other);
    let landed = second.lands(one, rising, other);
    lemma_ready_for_each(first, second, nodes);
    lemma_end_delivery(first, nodes, rising, level);
    lemma_end_delivery(second, nodes, rising, other);
    lemma_ends_apart(first, level, second, other, nodes, rising);
    assert(second.ready(one)) by {
        assert forall|slot: Slot| second.fanin(slot) + #[trigger] one.potential(slot) <= 1 by {
            assert(first.fanin(slot) + second.fanin(slot) + nodes.potential(slot) <= 1);
            if first.onward(nodes, level) is Some {
                let (wiring, _) = first.onward(nodes, level)->0;
                assert(wiring.fanin(slot) + one.potential(slot) == first.fanin(slot)
                    + nodes.potential(slot));
            }
        }
    }
    assert(first.ready(two)) by {
        assert forall|slot: Slot| first.fanin(slot) + #[trigger] two.potential(slot) <= 1 by {
            assert(first.fanin(slot) + second.fanin(slot) + nodes.potential(slot) <= 1);
            if second.onward(nodes, other) is Some {
                let (branch, _) = second.onward(nodes, other)->0;
                assert(branch.fanin(slot) + two.potential(slot) == second.fanin(slot)
                    + nodes.potential(slot));
            }
        }
    }
    lemma_end_delivery(second, one, rising, other);
    lemma_end_delivery(first, two, rising, level);
    if first.onward(nodes, level) is Some {
        let (wiring, _) = first.onward(nodes, level)->0;
        assert forall|slot: Slot|
            wiring.fanin(slot) + second.fanin(slot) + #[trigger] one.potential(slot) <= 1 by {
            assert(wiring.fanin(slot) + one.potential(slot) == first.fanin(slot)
                + nodes.potential(slot));
            assert(first.fanin(slot) + second.fanin(slot) + nodes.potential(slot) <= 1);
        }
        lemma_ready_for_both(wiring, second, one, nodes);
    }
    if second.onward(nodes, other) is Some {
        let (branch, _) = second.onward(nodes, other)->0;
        assert forall|slot: Slot|
            first.fanin(slot) + branch.fanin(slot) + #[trigger] two.potential(slot) <= 1 by {
            assert(branch.fanin(slot) + two.potential(slot) == second.fanin(slot)
                + nodes.potential(slot));
            assert(first.fanin(slot) + second.fanin(slot) + nodes.potential(slot) <= 1);
        }
        lemma_ready_for_both(first, branch, two, nodes);
    }
    if first.onward(nodes, level) is Some && second.onward(nodes, other) is Some {
        let (wiring, _) = first.onward(nodes, level)->0;
        let (branch, _) = second.onward(nodes, other)->0;
        assert forall|slot: Slot|
            wiring.fanin(slot) + branch.fanin(slot) + #[trigger] landed.potential(slot) <= 1 by {
            assert(branch.fanin(slot) + landed.potential(slot) == second.fanin(slot)
                + one.potential(slot));
            assert(wiring.fanin(slot) + one.potential(slot) == first.fanin(slot)
                + nodes.potential(slot));
            assert(first.fanin(slot) + second.fanin(slot) + nodes.potential(slot) <= 1);
        }
        lemma_ready_for_both(wiring, branch, landed, nodes);
    }
}

/// The order of two deliveries does not matter. In a network that is ready
/// for both of them, a level driven into one wiring and then another level
/// into another wiring leave the nodes as the two leave them the other way
/// round.
pub proof fn lemma_deliveries_commute(
    first: Output,
    level: LogicState,
    second: Output,
    other: LogicState,
    nodes: Nodes,
    rising: bool,
)
    requires
        Output::Splitter(Box::new(first), Box::new(second)).ready(nodes),
    ensures
        second.deliver(first.deliver(nodes, rising, level), rising, other) == first.deliver(
            second.deliver(nodes, rising, other),
            rising,
            level,
        ),
    decreases nodes.pending(), first.size() + second.size(),
{
    let count = nodes.gates.len();
    lemma_pending_bound(nodes.gates, count);
    lemma_ready_for_each(first, second, nodes);
    lemma_cascade(first, nodes, rising, level, count);
    lemma_cascade(second, nodes, rising, other, count);
    match first {
        Output::Splitter(left, right) => {
            let middle = left.deliver(nodes, rising, level);
            lemma_left_branch(*left, *right, nodes);
            lemma_cascade(*left, nodes, rising, level, count);
            assert forall|slot: Slot|
                right.fanin(slot) + second.fanin(slot) + #[trigger] middle.potential(slot) <= 1 by {
                assert(first.fanin(slot) + second.fanin(slot) + nodes.potential(slot) <= 1);
            }
            lemma_ready_for_both(*right, second, middle, nodes);
            lemma_deliveries_commute(*right, level, second, other, middle, rising);
            assert forall|slot: Slot|
                left.fanin(slot) + second.fanin(slot) + #[trigger] nodes.potential(slot) <= 1 by {
                assert(first.fanin(slot) + second.fanin(slot) + nodes.potential(slot) <= 1);
            }
            lemma_ready_for_both(*left, second, nodes, nodes);
            lemma_deliveries_commute(*left, level, second, other, nodes, rising);
            let after = second.deliver(nodes, rising, other);
            lemma_right_branch(second, *left, nodes, after);
            lemma_pending_bound(after.gates, count);
            lemma_cascade(*left, after, rising, level, count);
        },
        _ => {
            match second {
                Output::Splitter(left, right) => {
                    let middle = left.deliver(nodes, rising, other);
                    lemma_left_branch(*left, *right, nodes);
                    lemma_cascade(*left, nodes, rising, other, count);
                    assert forall|slot: Slot|
                        first.fanin(slot) + right.fanin(slot) + #[trigger] middle.potential(slot)
                            <= 1 by {
                        assert(first.fanin(slot) + second.fanin(slot) + nodes.potential(slot) <= 1);
                    }
                    lemma_ready_for_both(first, *right, middle, nodes);
                    lemma_deliveries_commute(first, level, *right, other, middle, rising);
                    assert forall|slot: Slot|
                        first.fanin(slot) + left.fanin(slot) + #[trigger] nodes.potential(slot)
                            <= 1 by {
                        assert(first.fanin(slot) + second.fanin(slot) + nodes.potential(slot) <= 1);
                    }
                    lemma_ready_for_both(first, *left, nodes, nodes);
                    lemma_deliveries_commute(first, level, *left, other, nodes, rising);
                    let after = first.deliver(nodes, rising, level);
                    lemma_right_branch(first, *left, nodes, after);
                    lemma_pending_bound(after.gates, count);
                    lemma_cascade(*left, after, rising, other, count);
                },
                _ => {
                    lemma_ends_commute(first, level, second, other, nodes, rising);
                },
            }
        },
    }
}

/// The order of two deliveries to ends of wiring does not matter.
pub proof fn lemma_ends_commute(
    first: Output,
    level: LogicState,
    second: Output,
    other: LogicState,
    nodes: Nodes,
    rising: bool,
)
    requires
        !(first is Splitter),
        !(second is Splitter),
        Output::Splitter(Box::new(first), Box::new(second)).ready(nodes),
    ensures
        second.deliver(first.deliver(nodes, rising, level), rising, other) == first.deliver(
            second.deliver(nodes, rising, other),
            rising,
            level,
        ),
    decreases nodes.pending(), 1nat,
{
    lemma_ready_for_each(first, second, nodes);
    if first.apart_from(second) {
        lemma_ends_apart_ready(first, level, second, other, nodes, rising);
        let one = first.lands(nodes, rising, level);
        let two = second.lands(nodes, rising, other);
        let landed = second.lands(one, rising, other);
        match (first.onward(nodes, level), second.onward(nodes, other)) {
            (None, None) => {},
            (None, Some((branch, outcome))) => {
                lemma_deliveries_commute(first, level, branch, outcome, two, rising);
            },
            (Some((wiring, result)), None) => {
                lemma_deliveries_commute(wiring, result, second, other, one, rising);
            },
            (Some((wiring, result)), Some((branch, outcome))) => {
                lemma_deliveries_commute(wiring, result, second, other, one, rising);
                lemma_deliveries_commute(first, level, branch, outcome, two, rising);
                lemma_deliveries_commute(wiring, result, branch, outcome, landed, rising);
            },
        }
    } else {
        match (first, second) {
            (Output::Gate(mine, side), Output::Gate(theirs, flank)) => {
                let target = Slot::Gate(mine, side);
                assert(first.fanin(target) + second.fanin(target) + nodes.potential(target) <= 1);
                if side {
                    lemma_ends_at_one_gate(mine, other, level, nodes, rising);
                } else {
                    lemma_ends_at_one_gate(mine, level, other, nodes, rising);
                }
            },
            (Output::Register(mine), Output::Register(theirs)) => {
                let target = Slot::Register(mine);
                assert(first.fanin(target) + second.fanin(target) + nodes.potential(target) <= 1);
            },
            _ => {},
        }
    }
}

} // verus!
