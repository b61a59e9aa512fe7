//! Combinational loops: chains of gates that lead back to where they began.

use vstd::prelude::*;
use super::carries;
use crate::logic::output::{Output, Slot};

verus! {

/// Whether an end of `output` arrives at an input of gate `gate`.
pub open spec fn reaches(output: Output, gate: int) -> bool {
    &&& 0 <= gate <= usize::MAX
    &&& output.fanin(Slot::Gate(gate as usize, false)) >= 1 || output.fanin(
        Slot::Gate(gate as usize, true),
    ) >= 1
}

/// Whether `path` is a chain of gates each of which feeds the next, where
/// `wiring` is the wiring of the gates.
pub open spec fn chain(wiring: Seq<Output>, path: Seq<int>) -> bool {
    &&& forall|position: int|
        0 <= position < path.len() ==> 0 <= #[trigger] path[position] < wiring.len()
    &&& forall|position: int|
        0 <= position < path.len() - 1 ==> reaches(
            wiring[#[trigger] path[position]],
            path[position + 1],
        )
}

/// Whether `path` is a combinational loop: a chain of gates that ends where
/// it begins.
pub open spec fn closed(wiring: Seq<Output>, path: Seq<int>) -> bool {
    &&& path.len() >= 2
    &&& chain(wiring, path)
    &&& path.first() == path.last()
}

/// A value that reaches a gate whose result can pass through some gates can
/// pass through one more.
pub proof fn lemma_carries_via(wiring: Seq<Output>, output: Output, gate: int, depth: nat)
    requires
        reaches(output, gate),
        0 <= gate < wiring.len(),
        carries(wiring, wiring[gate], depth),
    ensures
        carries(wiring, output, depth + 1),
    decreases output,
{
    match output {
        Output::Register(_) => {},
        Output::Gate(_, _) => {},
        Output::Splitter(left, right) => {
            if reaches(*left, gate) {
                lemma_carries_via(wiring, *left, gate, depth);
            } else {
                lemma_carries_via(wiring, *right, gate, depth);
            }
        },
    }
}

/// A value that can pass through some gates reaches a gate whose result can
/// pass through the rest of them.
pub proof fn lemma_carries_next(wiring: Seq<Output>, output: Output, depth: nat) -> (gate: int)
    requires
        carries(wiring, output, depth + 1),
    ensures
        reaches(output, gate),
        0 <= gate < wiring.len(),
        carries(wiring, wiring[gate], depth),
    decreases output,
{
    match output {
        Output::Register(_) => 0,
        Output::Gate(index, _) => index as int,
        Output::Splitter(left, right) => {
            if carries(wiring, *left, depth + 1) {
                lemma_carries_next(wiring, *left, depth)
            } else {
                lemma_carries_next(wiring, *right, depth)
            }
        },
    }
}

/// The result of a gate on a loop can pass through any number of gates.
pub proof fn lemma_loop_carries(wiring: Seq<Output>, path: Seq<int>, position: int, depth: nat)
    requires
        closed(wiring, path),
        0 <= position < path.len(),
    ensures
        carries(wiring, wiring[path[position]], depth),
    decreases depth, (if position == path.len() - 1 {
        1nat
    } else {
        0nat
    }),
{
    if depth > 0 {
        if position == path.len() - 1 {
            lemma_loop_carries(wiring, path, 0, depth);
        } else {
            lemma_loop_carries(wiring, path, position + 1, (depth - 1) as nat);
            lemma_carries_via(
                wiring,
                wiring[path[position]],
                path[position + 1],
                (depth - 1) as nat,
            );
        }
    }
}

/// A gate whose result can pass through some gates begins a chain of that
/// many gates more.
pub proof fn lemma_chain_of(wiring: Seq<Output>, gate: int, depth: nat) -> (path: Seq<int>)
    requires
        0 <= gate < wiring.len(),
        carries(wiring, wiring[gate], depth),
    ensures
        chain(wiring, path),
        path.len() == depth + 1,
        path[0] == gate,
    decreases depth,
{
    if depth == 0 {
        seq![gate]
    } else {
        let next = lemma_carries_next(wiring, wiring[gate], (depth - 1) as nat);
        let rest = lemma_chain_of(wiring, next, (depth - 1) as nat);
        let path = seq![gate] + rest;
        assert forall|position: int| 0 <= position < path.len() - 1 implies reaches(
            wiring[#[trigger] path[position]],
            path[position + 1],
        ) by {
            if position > 0 {
                assert(path[position] == rest[position - 1]);
                assert(path[position + 1] == rest[position]);
            }
        }
        path
    }
}

/// More gates in a row than there are gates: one of them comes twice.
pub proof fn lemma_comes_twice(path: Seq<int>, bound: nat) -> (pair: (int, int))
    requires
        path.len() > bound,
        forall|position: int| 0 <= position < path.len() ==> 0 <= #[trigger] path[position] < bound,
    ensures
        0 <= pair.0 < pair.1 < path.len(),
        path[pair.0] == path[pair.1],
{
    if path.no_duplicates() {
        path.unique_seq_to_set();
        vstd::set_lib::lemma_int_range(0, bound as int);
        assert(path.to_set().subset_of(vstd::set_lib::set_int_range(0, bound as int))) by {
            assert forall|gate: int| path.to_set().contains(gate) implies vstd::set_lib::set_int_range(
                0,
                bound as int,
            ).contains(gate) by {
                let position = choose|position: int|
                    0 <= position < path.len() && path[position] == gate;
                assert(0 <= path[position] < bound);
            }
        }
        vstd::set_lib::lemma_len_subset(
            path.to_set(),
            vstd::set_lib::set_int_range(0, bound as int),
        );
        (0, 0)
    } else {
        let (first, second) = choose|first: int, second: int|
            0 <= first < path.len() && 0 <= second < path.len() && first != second && path[first]
                == path[second];
        if first < second {
            (first, second)
        } else {
            (second, first)
        }
    }
}

/// A gate whose result can pass through as many gates in a row as there are
/// leads into a combinational loop.
pub proof fn lemma_long_chain_closes(wiring: Seq<Output>, gate: int) -> (path: Seq<int>)
    requires
        0 <= gate < wiring.len(),
        carries(wiring, wiring[gate], wiring.len()),
    ensures
        closed(wiring, path),
{
    let whole = lemma_chain_of(wiring, gate, wiring.len());
    let (first, second) = lemma_comes_twice(whole, wiring.len());
    let path = whole.subrange(first, second + 1);
    assert forall|position: int| 0 <= position < path.len() implies 0 <= #[trigger] path[position]
        < wiring.len() by {
        assert(path[position] == whole[first + position]);
    }
    assert forall|position: int| 0 <= position < path.len() - 1 implies reaches(
        wiring[#[trigger] path[position]],
        path[position + 1],
    ) by {
        assert(path[position] == whole[first + position]);
        assert(path[position + 1] == whole[first + position + 1]);
    }
    path
}

} // verus!
