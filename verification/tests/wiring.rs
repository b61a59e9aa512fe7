use emulator::{Constant, Gate, Input, LogicState, Operator, Output, Register};

fn register(state: LogicState, output: Output, rising: bool) -> Register {
    Register::new(Input::new(state), output, rising)
}

fn driven(state: LogicState) -> Input {
    Input { state: state, updated: true }
}

/// Two registers, the first active on the rising edge and the second on the
/// falling one, wired to nothing that matters, and no gates.
fn two_registers() -> Vec<Register> {
    vec![
        register(LogicState::Low, Output::Register(1), true),
        register(LogicState::Low, Output::Register(0), false),
    ]
}

#[test]
fn delivery_on_the_registers_own_edge_gives_metastable() {
    for state in [LogicState::High, LogicState::Low, LogicState::Floating, LogicState::Metastable] {
        let mut registers = two_registers();
        let mut gates: Vec<Gate> = Vec::new();
        Output::Register(0).update(&mut registers, &mut gates, true, state);
        assert_eq!(registers[0].input, driven(LogicState::Metastable));
        registers[0].reset();
        assert_eq!(registers[0].state, LogicState::Metastable);

        let mut registers = two_registers();
        Output::Register(1).update(&mut registers, &mut gates, false, state);
        assert_eq!(registers[1].input, driven(LogicState::Metastable));
    }
}

#[test]
fn delivery_on_the_other_edge_passes_the_level() {
    for state in [LogicState::High, LogicState::Low, LogicState::Floating, LogicState::Metastable] {
        let mut registers = two_registers();
        let mut gates: Vec<Gate> = Vec::new();
        Output::Register(0).update(&mut registers, &mut gates, false, state);
        assert_eq!(registers[0].input, driven(state));
        registers[0].reset();
        assert_eq!(registers[0].state, state);

        let mut registers = two_registers();
        Output::Register(1).update(&mut registers, &mut gates, true, state);
        assert_eq!(registers[1].input, driven(state));
    }
}

#[test]
fn delivery_to_a_register_touches_nothing_else() {
    let mut registers = two_registers();
    let mut gates = vec![Gate::new(Operator::And, Output::Register(0))];
    let untouched = registers[1].clone();
    let gate = gates[0].clone();
    Output::Register(0).update(&mut registers, &mut gates, false, LogicState::High);
    assert_eq!(registers[1], untouched);
    assert_eq!(gates[0], gate);
    assert_eq!(registers[0].state, LogicState::Low);
    assert_eq!(registers[0].output, Output::Register(1));
    assert!(registers[0].rising);
}

#[test]
fn a_gate_with_one_input_driven_is_silent() {
    let mut registers = two_registers();
    let mut gates = vec![Gate::new(Operator::Or, Output::Register(1))];
    let before = registers.clone();
    Output::Gate(0, false).update(&mut registers, &mut gates, true, LogicState::High);
    assert_eq!(gates[0].left_input, driven(LogicState::High));
    assert_eq!(gates[0].right_input, Input { state: LogicState::Floating, updated: false });
    assert_eq!(gates[0].state, LogicState::Floating);
    assert_eq!(registers, before);

    let mut gates = vec![Gate::new(Operator::Or, Output::Register(1))];
    Output::Gate(0, true).update(&mut registers, &mut gates, true, LogicState::Low);
    assert_eq!(gates[0].right_input, driven(LogicState::Low));
    assert_eq!(gates[0].left_input, Input { state: LogicState::Floating, updated: false });
    assert_eq!(gates[0].state, LogicState::Floating);
    assert_eq!(registers, before);
}

#[test]
fn the_second_input_makes_a_gate_evaluate_and_drive_on() {
    let mut registers = two_registers();
    let mut gates = vec![Gate::new(Operator::Xor, Output::Register(1))];
    Output::Gate(0, true).update(&mut registers, &mut gates, true, LogicState::High);
    assert_eq!(registers[1].input, Input { state: LogicState::Low, updated: false });
    Output::Gate(0, false).update(&mut registers, &mut gates, true, LogicState::Low);
    assert_eq!(gates[0].left_input, driven(LogicState::Low));
    assert_eq!(gates[0].right_input, driven(LogicState::High));
    assert_eq!(gates[0].state, LogicState::High);
    assert_eq!(registers[1].input, driven(LogicState::High));
    assert_eq!(registers[0].input, Input { state: LogicState::Low, updated: false });
}

#[test]
fn the_order_of_arrival_does_not_change_what_a_gate_computes() {
    for (first, second) in [(false, true), (true, false)] {
        let mut registers = two_registers();
        let mut gates = vec![Gate::new(Operator::And, Output::Register(1))];
        let level = |right: bool| if right { LogicState::High } else { LogicState::Low };
        Output::Gate(0, first).update(&mut registers, &mut gates, true, level(first));
        Output::Gate(0, second).update(&mut registers, &mut gates, true, level(second));
        assert_eq!(gates[0].left_input, driven(LogicState::Low));
        assert_eq!(gates[0].right_input, driven(LogicState::High));
        assert_eq!(gates[0].state, LogicState::Low);
        assert_eq!(registers[1].input, driven(LogicState::Low));
    }
}

#[test]
fn a_gate_result_is_subject_to_the_hazard_rule_at_a_register() {
    let mut registers = two_registers();
    let mut gates = vec![Gate::new(Operator::Or, Output::Register(0))];
    Output::Gate(0, false).update(&mut registers, &mut gates, true, LogicState::High);
    Output::Gate(0, true).update(&mut registers, &mut gates, true, LogicState::High);
    assert_eq!(gates[0].state, LogicState::High);
    assert_eq!(registers[0].input, driven(LogicState::Metastable));
}

#[test]
fn a_cascade_runs_through_a_chain_of_gates_within_one_delivery() {
    let mut registers = two_registers();
    let mut gates = vec![
        Gate::new(Operator::And, Output::Gate(1, false)),
        Gate::new(Operator::Xor, Output::Gate(2, true)),
        Gate::new(Operator::Or, Output::Register(1)),
    ];
    Output::Gate(2, false).update(&mut registers, &mut gates, true, LogicState::Low);
    Output::Gate(1, true).update(&mut registers, &mut gates, true, LogicState::High);
    Output::Gate(0, true).update(&mut registers, &mut gates, true, LogicState::High);
    assert_eq!(gates[0].state, LogicState::Floating);
    assert_eq!(gates[1].state, LogicState::Floating);
    assert_eq!(gates[2].state, LogicState::Floating);
    Output::Gate(0, false).update(&mut registers, &mut gates, true, LogicState::High);
    assert_eq!(gates[0].state, LogicState::High);
    assert_eq!(gates[1].left_input, driven(LogicState::High));
    assert_eq!(gates[1].state, LogicState::Low);
    assert_eq!(gates[2].right_input, driven(LogicState::Low));
    assert_eq!(gates[2].state, LogicState::Low);
    assert_eq!(registers[1].input, driven(LogicState::Low));
}

#[test]
fn tri_state_levels_pass_through_gates_as_values() {
    let mut registers = two_registers();
    let mut gates = vec![Gate::new(Operator::And, Output::Register(1))];
    Output::Gate(0, false).update(&mut registers, &mut gates, true, LogicState::Metastable);
    Output::Gate(0, true).update(&mut registers, &mut gates, true, LogicState::Low);
    assert_eq!(gates[0].state, LogicState::Metastable);
    assert_eq!(registers[1].input, driven(LogicState::Metastable));

    let mut registers = two_registers();
    let mut gates = vec![Gate::new(Operator::Or, Output::Register(1))];
    Output::Gate(0, false).update(&mut registers, &mut gates, true, LogicState::Metastable);
    Output::Gate(0, true).update(&mut registers, &mut gates, true, LogicState::Floating);
    assert_eq!(gates[0].state, LogicState::Floating);
    assert_eq!(registers[1].input, driven(LogicState::Floating));
}

#[test]
fn a_splitter_reaches_both_of_its_branches() {
    let mut registers = two_registers();
    let mut gates = vec![Gate::new(Operator::And, Output::Register(0))];
    let splitter = Output::Splitter(Box::new(Output::Register(1)), Box::new(Output::Gate(0, true)));
    splitter.update(&mut registers, &mut gates, true, LogicState::High);
    assert_eq!(registers[1].input, driven(LogicState::High));
    assert_eq!(gates[0].right_input, driven(LogicState::High));
    assert_eq!(gates[0].left_input, Input { state: LogicState::Floating, updated: false });
    assert_eq!(registers[0].input, Input { state: LogicState::Low, updated: false });
}

#[test]
fn the_order_of_the_branches_of_a_splitter_does_not_matter() {
    let branches = || (Output::Register(1), Output::Gate(0, true));
    let (first, second) = branches();
    let straight = Output::Splitter(Box::new(first), Box::new(second));
    let (first, second) = branches();
    let swapped = Output::Splitter(Box::new(second), Box::new(first));

    let mut registers_a = two_registers();
    let mut gates_a = vec![Gate::new(Operator::And, Output::Register(0))];
    straight.update(&mut registers_a, &mut gates_a, true, LogicState::Low);
    let mut registers_b = two_registers();
    let mut gates_b = vec![Gate::new(Operator::And, Output::Register(0))];
    swapped.update(&mut registers_b, &mut gates_b, true, LogicState::Low);
    assert_eq!(registers_a, registers_b);
    assert_eq!(gates_a, gates_b);
    assert_eq!(registers_a[1].input, driven(LogicState::Low));
    assert_eq!(gates_a[0].right_input, driven(LogicState::Low));
}

#[test]
fn a_splitter_may_complete_a_gate_from_both_branches() {
    let mut registers = two_registers();
    let mut gates = vec![Gate::new(Operator::Xor, Output::Register(1))];
    let splitter = Output::Splitter(Box::new(Output::Gate(0, false)), Box::new(Output::Gate(0, true)));
    splitter.update(&mut registers, &mut gates, true, LogicState::High);
    assert_eq!(gates[0].left_input, driven(LogicState::High));
    assert_eq!(gates[0].right_input, driven(LogicState::High));
    assert_eq!(gates[0].state, LogicState::Low);
    assert_eq!(registers[1].input, driven(LogicState::Low));
}

#[test]
fn nested_splitters_reach_every_end() {
    let mut registers = vec![
        register(LogicState::Low, Output::Gate(0, false), false),
        register(LogicState::Low, Output::Gate(0, false), false),
        register(LogicState::Low, Output::Gate(0, false), true),
    ];
    let mut gates: Vec<Gate> = Vec::new();
    let wiring = Output::Splitter(
        Box::new(Output::Splitter(Box::new(Output::Register(2)), Box::new(Output::Register(0)))),
        Box::new(Output::Register(1)),
    );
    wiring.update(&mut registers, &mut gates, true, LogicState::High);
    assert_eq!(registers[0].input, driven(LogicState::High));
    assert_eq!(registers[1].input, driven(LogicState::High));
    assert_eq!(registers[2].input, driven(LogicState::Metastable));
}

#[test]
fn a_register_drives_its_latched_level_not_its_input() {
    let mut registers = two_registers();
    let mut gates: Vec<Gate> = Vec::new();
    let mut source = register(LogicState::High, Output::Register(1), true);
    source.input.state = LogicState::Low;
    source.update(&mut registers, &mut gates, true);
    assert_eq!(registers[1].input, driven(LogicState::High));
}

#[test]
fn a_constant_drives_its_level_in_either_phase() {
    let constant = Constant::new(LogicState::High, Output::Gate(0, true));
    for rising in [true, false] {
        let mut registers = two_registers();
        let mut gates = vec![Gate::new(Operator::And, Output::Register(0))];
        constant.update(&mut registers, &mut gates, rising);
        assert_eq!(gates[0].right_input, driven(LogicState::High));
        assert_eq!(gates[0].left_input, Input { state: LogicState::Floating, updated: false });
    }
}

#[test]
fn a_constant_driving_a_register_is_subject_to_the_hazard_rule() {
    let constant = Constant::new(LogicState::High, Output::Register(0));
    let mut registers = two_registers();
    let mut gates: Vec<Gate> = Vec::new();
    constant.update(&mut registers, &mut gates, true);
    assert_eq!(registers[0].input, driven(LogicState::Metastable));
    let mut registers = two_registers();
    constant.update(&mut registers, &mut gates, false);
    assert_eq!(registers[0].input, driven(LogicState::High));
}

#[test]
fn a_register_does_not_drive_on_the_other_edge() {
    let mut registers = two_registers();
    let mut gates = vec![Gate::new(Operator::And, Output::Register(0))];
    let source = register(LogicState::High, splitter_to_both(), true);
    let registers_before = registers.clone();
    let gates_before = gates.clone();
    source.update(&mut registers, &mut gates, false);
    assert_eq!(registers, registers_before);
    assert_eq!(gates, gates_before);
    source.update(&mut registers, &mut gates, true);
    assert_eq!(registers[1].input, driven(LogicState::High));
    assert_eq!(gates[0].left_input, driven(LogicState::High));
}

fn splitter_to_both() -> Output {
    Output::Splitter(Box::new(Output::Register(1)), Box::new(Output::Gate(0, false)))
}

#[test]
fn two_deliveries_end_up_alike_in_either_order() {
    let network = || {
        let registers = vec![
            register(LogicState::Low, Output::Gate(0, false), true),
            register(LogicState::Low, Output::Gate(0, false), false),
        ];
        let gates = vec![
            Gate::new(Operator::And, Output::Splitter(Box::new(Output::Gate(2, false)), Box::new(Output::Register(0)))),
            Gate::new(Operator::Or, Output::Splitter(Box::new(Output::Gate(2, true)), Box::new(Output::Gate(0, true)))),
            Gate::new(Operator::Xor, Output::Register(1)),
        ];
        (registers, gates)
    };
    let first = Output::Splitter(Box::new(Output::Gate(0, false)), Box::new(Output::Gate(1, true)));
    let second = Output::Gate(1, false);

    let (mut registers_a, mut gates_a) = network();
    first.update(&mut registers_a, &mut gates_a, false, LogicState::High);
    second.update(&mut registers_a, &mut gates_a, false, LogicState::Low);

    let (mut registers_b, mut gates_b) = network();
    second.update(&mut registers_b, &mut gates_b, false, LogicState::Low);
    first.update(&mut registers_b, &mut gates_b, false, LogicState::High);

    assert_eq!(registers_a, registers_b);
    assert_eq!(gates_a, gates_b);
    assert_eq!(gates_a[1].state, LogicState::High);
    assert_eq!(gates_a[0].state, LogicState::High);
    assert_eq!(gates_a[2].state, LogicState::Low);
    assert_eq!(registers_a[0].input, driven(LogicState::High));
    assert_eq!(registers_a[1].input, driven(LogicState::Metastable));
}
