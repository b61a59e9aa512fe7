//! A tick-driven simulator for networks of four-valued digital logic.
//!
//! Gates, registers and constants are held in index-addressed collections and
//! wired together by plain indices. One tick advances the network by a clock
//! half-cycle: registers capture, sources drive their wiring, gates evaluate
//! as soon as both of their inputs have arrived, and the result cascades on
//! within the same tick. A recorder samples the settled network after each
//! tick and derives multi-bit values from the bits it has sampled.

pub mod types;
pub mod logic;
pub mod topology;
pub mod engine;
pub mod inspector;
pub mod device;
pub mod laws;

pub use crate::device::Device;
pub use crate::engine::{build_network, Core};
pub use crate::inspector::{
    Formatting, Group, Inspector, InspectorItem, Label, LabelSource, LogicTracker, Tracker,
    ValueTracker,
};
pub use crate::logic::{
    Constant, Gate, Input, LogicState, Operator, Output, Register, Slot, ValueState,
};
pub use crate::topology::TopologyError;
pub use crate::types::{Color, Key};
