//! The signal cell at the receiving end of a wire.

use vstd::prelude::*;
use super::logic::LogicState;

verus! {

/// A signal cell: the level it holds, and whether a value has been
/// delivered to it in the current tick.
#[derive(Copy, Clone, Debug, PartialEq, Eq, Structural)]
pub struct Input {
    pub state: LogicState,
    pub updated: bool,
}

impl Input {
    /// The cell after `state` has been delivered to it.
    pub open spec fn driven_with(state: LogicState) -> Input {
        Input { state: state, updated: true }
    }

    /// The cell at the start of a tick: it keeps its level and counts as
    /// not driven.
    pub open spec fn cleared(self) -> Input {
        Input { state: self.state, updated: false }
    }

    pub fn new(state: LogicState) -> (result: Self)
        ensures
            result == (Input { state: state, updated: false }),
    {
        Self { state: state, updated: false }
    }

    pub fn update(&mut self, state: LogicState)
        ensures
            *final(self) == Self::driven_with(state),
    {
        self.state = state;
        self.updated = true;
    }

    pub fn reset(&mut self)
        ensures
            *final(self) == old(self).cleared(),
    {
        self.updated = false;
    }
}

} // verus!
