//! The value algebra and the elements a network is made of.

pub mod operator;
pub mod logic;
pub mod value;
pub mod input;
pub mod output;
pub mod gate;
pub mod register;
pub mod constant;
pub mod nodes;
pub mod cascade;
pub mod order;

pub use self::constant::Constant;
pub use self::gate::Gate;
pub use self::input::Input;
pub use self::logic::LogicState;
pub use self::nodes::Nodes;
pub use self::operator::Operator;
pub use self::output::{Output, Slot};
pub use self::register::Register;
pub use self::value::ValueState;
