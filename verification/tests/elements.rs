use emulator::{Constant, Gate, Input, LogicState, Operator, Output, Register};

#[test]
fn a_new_input_is_not_driven() {
    let input = Input::new(LogicState::High);
    assert_eq!(input, Input { state: LogicState::High, updated: false });
}

#[test]
fn update_writes_the_level_and_marks_the_input_driven() {
    let mut input = Input::new(LogicState::Floating);
    input.update(LogicState::Low);
    assert_eq!(input, Input { state: LogicState::Low, updated: true });
}

#[test]
fn reset_clears_the_flag_and_keeps_the_level() {
    let mut input = Input::new(LogicState::Floating);
    input.update(LogicState::Metastable);
    input.reset();
    assert_eq!(input, Input { state: LogicState::Metastable, updated: false });
}

#[test]
fn a_new_gate_floats_throughout() {
    let gate = Gate::new(Operator::Xor, Output::Register(4));
    assert_eq!(gate.operator, Operator::Xor);
    assert_eq!(gate.left_input, Input { state: LogicState::Floating, updated: false });
    assert_eq!(gate.right_input, Input { state: LogicState::Floating, updated: false });
    assert_eq!(gate.state, LogicState::Floating);
    assert_eq!(gate.output, Output::Register(4));
}

#[test]
fn gate_reset_clears_both_flags_and_keeps_levels_and_result() {
    let mut gate = Gate::new(Operator::And, Output::Register(0));
    gate.left_input.update(LogicState::High);
    gate.right_input.update(LogicState::Low);
    gate.state = LogicState::Low;
    gate.reset();
    assert_eq!(gate.left_input, Input { state: LogicState::High, updated: false });
    assert_eq!(gate.right_input, Input { state: LogicState::Low, updated: false });
    assert_eq!(gate.state, LogicState::Low);
    assert_eq!(gate.operator, Operator::And);
    assert_eq!(gate.output, Output::Register(0));
}

#[test]
fn a_new_register_has_latched_its_initial_level() {
    let register = Register::new(Input::new(LogicState::Low), Output::Gate(2, true), false);
    assert_eq!(register.input, Input { state: LogicState::Low, updated: false });
    assert_eq!(register.state, LogicState::Low);
    assert_eq!(register.output, Output::Gate(2, true));
    assert!(!register.rising);
}

#[test]
fn register_reset_captures_the_input_and_clears_the_flag() {
    let mut register = Register::new(Input::new(LogicState::Low), Output::Register(0), true);
    register.input.update(LogicState::High);
    assert_eq!(register.state, LogicState::Low);
    register.reset();
    assert_eq!(register.state, LogicState::High);
    assert_eq!(register.input, Input { state: LogicState::High, updated: false });
    assert!(register.rising);
}

#[test]
fn register_reset_without_a_delivery_keeps_the_level() {
    let mut register = Register::new(Input::new(LogicState::Floating), Output::Register(0), false);
    register.reset();
    register.reset();
    assert_eq!(register.state, LogicState::Floating);
    assert_eq!(register.input, Input { state: LogicState::Floating, updated: false });
}

#[test]
fn a_new_constant_holds_its_level_and_wiring() {
    let constant = Constant::new(LogicState::High, Output::Gate(1, false));
    assert_eq!(constant.state, LogicState::High);
    assert_eq!(constant.output, Output::Gate(1, false));
}

#[test]
fn clones_are_equal_to_their_originals() {
    let wiring = Output::Splitter(
        Box::new(Output::Register(3)),
        Box::new(Output::Splitter(Box::new(Output::Gate(1, true)), Box::new(Output::Gate(2, false)))),
    );
    assert_eq!(wiring.clone(), wiring);
    let gate = Gate::new(Operator::Or, wiring.clone());
    assert_eq!(gate.clone(), gate);
    let register = Register::new(Input::new(LogicState::High), wiring.clone(), true);
    assert_eq!(register.clone(), register);
    let constant = Constant::new(LogicState::Low, wiring);
    assert_eq!(constant.clone(), constant);
}
