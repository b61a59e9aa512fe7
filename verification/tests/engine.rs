use emulator::{
    build_network, Constant, Core, Gate, Group, Input, Inspector, InspectorItem, Key, LabelSource,
    LogicState, LogicTracker, Operator, Output, Register, Slot, TopologyError, ValueState,
    ValueTracker,
};

const HIGH: LogicState = LogicState::High;
const LOW: LogicState = LogicState::Low;
const FLOATING: LogicState = LogicState::Floating;
const METASTABLE: LogicState = LogicState::Metastable;

fn register(state: LogicState, output: Output, rising: bool) -> Register {
    Register::new(Input::new(state), output, rising)
}

fn splitter(left: Output, right: Output) -> Output {
    Output::Splitter(Box::new(left), Box::new(right))
}

fn driven(state: LogicState) -> Input {
    Input { state: state, updated: true }
}

fn idle(state: LogicState) -> Input {
    Input { state: state, updated: false }
}

fn empty_tree() -> InspectorItem {
    InspectorItem::Group(Group::new("core", None, Vec::new()))
}

fn build(gates: Vec<Gate>, registers: Vec<Register>, constants: Vec<Constant>) -> Core {
    build_network(gates, registers, constants, None).unwrap()
}

fn refusal(gates: Vec<Gate>, registers: Vec<Register>, constants: Vec<Constant>) -> TopologyError {
    build_network(gates, registers, constants, None).unwrap_err()
}

fn gate_states(core: &Core) -> Vec<LogicState> {
    core.gates().iter().map(|gate| gate.state).collect()
}

fn latched(core: &Core) -> Vec<LogicState> {
    core.registers().iter().map(|register| register.state).collect()
}

fn inputs(core: &Core) -> Vec<LogicState> {
    core.registers().iter().map(|register| register.input.state).collect()
}

#[test]
fn the_loaded_circuit_is_as_described() {
    let core = Core::load(String::from("test.logic"), false);
    assert_eq!(core.cycle_count(), 0);
    assert!(core.inspector().is_none());
    assert_eq!(core.gates().len(), 6);
    assert_eq!(core.registers().len(), 9);
    assert_eq!(core.constants().len(), 3);
    assert_eq!(latched(&core), vec![HIGH, LOW, HIGH, HIGH, HIGH, HIGH, FLOATING, FLOATING, FLOATING]);
    assert_eq!(core.registers()[0], register(HIGH, Output::Gate(0, false), true));
    assert_eq!(core.registers()[4], register(HIGH, Output::Gate(1, true), true));
    assert_eq!(
        core.registers()[7],
        register(FLOATING, splitter(Output::Register(1), Output::Gate(4, false)), false)
    );
    assert_eq!(core.gates()[0], Gate::new(Operator::And, Output::Register(6)));
    assert_eq!(core.gates()[2], Gate::new(Operator::Xor, Output::Register(8)));
    assert_eq!(core.gates()[3], Gate::new(Operator::And, Output::Register(3)));
    assert_eq!(core.gates()[4], Gate::new(Operator::And, Output::Register(4)));
    assert_eq!(core.gates()[5], Gate::new(Operator::And, Output::Register(5)));
    assert_eq!(core.constants()[1], Constant::new(HIGH, Output::Gate(4, true)));
}

#[test]
fn the_loaded_circuit_passes_validation() {
    let core = Core::load(String::from("test.logic"), false);
    let rebuilt = build_network(
        core.gates().clone(),
        core.registers().clone(),
        core.constants().clone(),
        None,
    );
    assert!(rebuilt.is_ok());
}

#[test]
fn the_loaded_circuit_after_a_rising_and_a_falling_tick() {
    let mut core = Core::load(String::from("test.logic"), true);
    core.tick(true);
    assert_eq!(gate_states(&core)[..3], [HIGH, HIGH, LOW]);
    assert_eq!(gate_states(&core)[3..], [FLOATING, FLOATING, FLOATING]);
    assert_eq!(inputs(&core)[6..], [HIGH, HIGH, LOW]);
    assert_eq!(latched(&core)[6..], [FLOATING, FLOATING, FLOATING]);
    assert_eq!(core.cycle_count(), 1);

    core.tick(false);
    assert_eq!(gate_states(&core), vec![HIGH, HIGH, LOW, HIGH, HIGH, LOW]);
    assert_eq!(latched(&core), vec![HIGH, LOW, HIGH, HIGH, HIGH, HIGH, HIGH, HIGH, LOW]);
    assert_eq!(inputs(&core)[..3], [HIGH, HIGH, LOW]);
    assert_eq!(inputs(&core)[3..6], [HIGH, HIGH, LOW]);
    assert_eq!(inputs(&core)[6..], [HIGH, HIGH, LOW]);
    for index in 0..6 {
        assert!(core.registers()[index].input.updated);
    }
    for index in 6..9 {
        assert!(!core.registers()[index].input.updated);
    }
    assert_eq!(core.cycle_count(), 1);
    assert!(!inputs(&core).contains(&METASTABLE));
    assert!(!latched(&core).contains(&METASTABLE));

    core.tick(true);
    assert_eq!(latched(&core)[..3], [HIGH, HIGH, LOW]);
    assert_eq!(latched(&core)[3..6], [HIGH, HIGH, LOW]);
    assert_eq!(gate_states(&core), vec![HIGH, LOW, LOW, HIGH, HIGH, LOW]);
    assert_eq!(inputs(&core)[6..], [HIGH, LOW, LOW]);
    assert_eq!(core.cycle_count(), 2);
}

#[test]
fn the_recorder_of_the_loaded_circuit_samples_after_each_tick() {
    let mut core = Core::load(String::from("test.logic"), true);
    core.tick(true);
    core.tick(false);
    let inspector = core.inspector().unwrap();
    assert_eq!(inspector.logic_tracker_count(), 15);
    assert_eq!(inspector.value_tracker_count(), 2);
    assert_eq!(inspector.history(0), Some(&vec![HIGH, HIGH]));
    assert_eq!(inspector.history(1), Some(&vec![LOW, LOW]));
    assert_eq!(inspector.history(2), Some(&vec![HIGH, HIGH]));
    assert_eq!(inspector.history(6), Some(&vec![FLOATING, HIGH]));
    assert_eq!(inspector.history(7), Some(&vec![FLOATING, HIGH]));
    assert_eq!(inspector.history(8), Some(&vec![FLOATING, LOW]));
    assert_eq!(inspector.history(10), Some(&vec![LOW, LOW]));
    assert_eq!(
        inspector.value_history(0),
        Some((&vec![ValueState::Stable(5), ValueState::Stable(5)], 3))
    );
    assert_eq!(
        inspector.value_history(1),
        Some((&vec![ValueState::Stable(7), ValueState::Stable(7)], 3))
    );
    assert_eq!(inspector.latest_value(0), Some(ValueState::Stable(5)));
    assert_eq!(inspector.latest_state(8), Some(LOW));
}

#[test]
fn a_core_without_a_recorder_ignores_keys() {
    let mut core = Core::load(String::from("test.logic"), false);
    core.handle_key_input(Key::T);
    assert!(core.inspector().is_none());
    let mut core = Core::load(String::from("test.logic"), true);
    assert!(core.inspector().unwrap().show_trackers());
    core.handle_key_input(Key::T);
    assert!(!core.inspector().unwrap().show_trackers());
    assert_eq!(core.cycle_count(), 0);
}

#[test]
fn the_cycle_count_counts_the_rising_ticks() {
    let mut core = Core::load(String::from("test.logic"), false);
    let phases = [true, false, false, true, true, false, true, false, false, false, true];
    let mut rising = 0;
    for phase in phases {
        core.tick(phase);
        if phase {
            rising += 1;
        }
        assert_eq!(core.cycle_count(), rising);
    }
    assert_eq!(core.cycle_count(), 5);
}

#[test]
fn falling_ticks_alone_leave_the_cycle_count_at_zero() {
    let mut core = build(Vec::new(), Vec::new(), Vec::new());
    for _ in 0..7 {
        core.tick(false);
    }
    assert_eq!(core.cycle_count(), 0);
    core.tick(true);
    assert_eq!(core.cycle_count(), 1);
}

#[test]
fn a_register_fed_on_its_own_edge_captures_metastable() {
    let registers = vec![
        register(HIGH, Output::Register(1), true),
        register(LOW, Output::Register(2), true),
        register(LOW, Output::Register(0), false),
    ];
    let mut core = build(Vec::new(), registers, Vec::new());
    core.tick(true);
    assert_eq!(core.registers()[1].input, driven(METASTABLE));
    assert_eq!(core.registers()[2].input, driven(LOW));
    assert_eq!(core.registers()[0].input, idle(HIGH));
    assert_eq!(latched(&core), vec![HIGH, LOW, LOW]);
    core.tick(false);
    assert_eq!(latched(&core), vec![HIGH, METASTABLE, LOW]);
    assert_eq!(core.registers()[0].input, driven(LOW));
    core.tick(true);
    assert_eq!(latched(&core), vec![LOW, METASTABLE, LOW]);
    assert_eq!(core.registers()[1].input, driven(METASTABLE));
    assert_eq!(core.registers()[2].input, driven(METASTABLE));
}

#[test]
fn a_register_fed_on_the_other_edge_captures_what_was_delivered() {
    for state in [HIGH, LOW, FLOATING, METASTABLE] {
        let registers = vec![
            register(state, Output::Register(1), true),
            register(LOW, Output::Register(0), false),
        ];
        let mut core = build(Vec::new(), registers, Vec::new());
        core.tick(true);
        assert_eq!(core.registers()[1].input, driven(state));
        core.tick(false);
        assert_eq!(core.registers()[1].state, state);
    }
}

#[test]
fn a_register_that_is_not_active_does_not_drive() {
    let registers = vec![
        register(HIGH, Output::Register(1), true),
        register(LOW, Output::Register(0), false),
    ];
    let mut core = build(Vec::new(), registers, Vec::new());
    core.tick(false);
    assert_eq!(core.registers()[1].input, idle(LOW));
    assert_eq!(core.registers()[0].input, driven(LOW));
}

#[test]
fn a_tick_captures_before_anything_is_driven() {
    let mut source = register(LOW, Output::Register(1), true);
    source.input.state = HIGH;
    let registers = vec![source, register(LOW, Output::Register(0), false)];
    let mut core = build(Vec::new(), registers, Vec::new());
    core.tick(true);
    assert_eq!(core.registers()[0].state, HIGH);
    assert_eq!(core.registers()[1].input, driven(HIGH));
}

#[test]
fn a_tick_clears_the_driven_flags_of_the_tick_before() {
    let registers = vec![
        register(HIGH, splitter(Output::Register(1), Output::Gate(0, false)), true),
        register(LOW, Output::Gate(1, false), false),
    ];
    let gates = vec![
        Gate::new(Operator::And, Output::Gate(1, true)),
        Gate::new(Operator::And, Output::Register(0)),
    ];
    let mut core = build(gates, registers, Vec::new());
    core.tick(true);
    assert_eq!(core.registers()[1].input, driven(HIGH));
    assert_eq!(core.gates()[0].left_input, driven(HIGH));
    core.tick(false);
    assert_eq!(core.registers()[1].input, idle(HIGH));
    assert_eq!(core.gates()[0].left_input, idle(HIGH));
    assert_eq!(core.gates()[1].left_input, driven(HIGH));
    assert_eq!(core.gates()[0].state, FLOATING);
    assert_eq!(core.gates()[1].state, FLOATING);
}

#[test]
fn a_gate_with_one_driver_never_evaluates() {
    let gates = vec![Gate::new(Operator::Or, Output::Register(0))];
    let registers = vec![register(LOW, Output::Gate(0, false), true)];
    let constants = vec![Constant::new(HIGH, Output::Gate(0, true))];
    let mut core = build(gates, registers, constants);
    core.tick(false);
    assert_eq!(core.gates()[0].right_input, driven(HIGH));
    assert_eq!(core.gates()[0].left_input, idle(FLOATING));
    assert_eq!(core.gates()[0].state, FLOATING);
    assert_eq!(core.registers()[0].input, idle(LOW));
    core.tick(true);
    assert_eq!(core.gates()[0].left_input, driven(LOW));
    assert_eq!(core.gates()[0].state, HIGH);
    assert_eq!(core.registers()[0].input, driven(METASTABLE));
    core.tick(false);
    assert_eq!(core.gates()[0].left_input, idle(LOW));
    assert_eq!(core.gates()[0].state, HIGH);
    assert_eq!(core.registers()[0].state, METASTABLE);
}

#[test]
fn constants_and_registers_complete_gates_in_either_order() {
    let gates = vec![
        Gate::new(Operator::And, Output::Register(2)),
        Gate::new(Operator::Xor, Output::Register(3)),
    ];
    let registers = vec![
        register(HIGH, Output::Gate(0, false), true),
        register(HIGH, Output::Gate(1, true), true),
        register(FLOATING, Output::Gate(1, false), false),
        register(FLOATING, Output::Gate(0, true), false),
    ];
    let mut core = build(gates, registers, Vec::new());
    core.tick(true);
    assert_eq!(gate_states(&core), vec![FLOATING, FLOATING]);
    core.tick(false);
    assert_eq!(gate_states(&core), vec![FLOATING, FLOATING]);
    assert_eq!(core.gates()[1].left_input, driven(FLOATING));
    assert_eq!(core.gates()[1].right_input, idle(HIGH));
}

#[test]
fn a_cascade_through_several_gates_settles_within_one_tick() {
    let gates = vec![
        Gate::new(Operator::And, splitter(Output::Gate(1, false), Output::Gate(2, false))),
        Gate::new(Operator::Xor, Output::Gate(2, true)),
        Gate::new(Operator::Or, Output::Register(2)),
    ];
    let registers = vec![
        register(HIGH, Output::Gate(0, false), true),
        register(HIGH, Output::Gate(0, true), true),
        register(FLOATING, Output::Register(0), false),
    ];
    let constants = vec![Constant::new(HIGH, Output::Gate(1, true))];
    let mut core = build(gates, registers, constants);
    core.tick(true);
    assert_eq!(gate_states(&core), vec![HIGH, LOW, HIGH]);
    assert_eq!(core.registers()[2].input, driven(HIGH));
    core.tick(false);
    assert_eq!(gate_states(&core), vec![HIGH, LOW, HIGH]);
    assert_eq!(core.registers()[2].state, HIGH);
    assert_eq!(core.registers()[0].input, driven(HIGH));
}

#[test]
fn an_empty_network_ticks() {
    let mut core = build(Vec::new(), Vec::new(), Vec::new());
    core.tick(true);
    core.tick(false);
    assert_eq!(core.cycle_count(), 1);
    assert!(core.gates().is_empty());
    assert!(core.registers().is_empty());
    assert!(core.constants().is_empty());
}

#[test]
fn a_built_core_holds_what_it_was_built_of() {
    let gates = vec![Gate::new(Operator::Or, Output::Register(0))];
    let registers = vec![register(LOW, Output::Gate(0, false), true)];
    let constants = vec![Constant::new(HIGH, Output::Gate(0, true))];
    let core = build(gates.clone(), registers.clone(), constants.clone());
    assert_eq!(core.gates(), &gates);
    assert_eq!(core.registers(), &registers);
    assert_eq!(core.constants(), &constants);
    assert_eq!(core.cycle_count(), 0);
    assert!(core.inspector().is_none());
}

#[test]
fn wiring_to_a_register_that_does_not_exist_is_refused() {
    let registers = vec![register(LOW, Output::Register(1), true)];
    assert_eq!(refusal(Vec::new(), registers, Vec::new()), TopologyError::Dangling(Slot::Register(1)));
    let constants = vec![Constant::new(HIGH, Output::Register(0))];
    assert_eq!(refusal(Vec::new(), Vec::new(), constants), TopologyError::Dangling(Slot::Register(0)));
}

#[test]
fn wiring_to_a_gate_that_does_not_exist_is_refused() {
    let gates = vec![Gate::new(Operator::And, splitter(Output::Register(0), Output::Gate(1, true)))];
    let registers = vec![register(LOW, Output::Gate(0, false), true)];
    assert_eq!(refusal(gates, registers, Vec::new()), TopologyError::Dangling(Slot::Gate(1, true)));
}

#[test]
fn dangling_wiring_is_reported_before_anything_else() {
    let gates = vec![Gate::new(Operator::And, Output::Gate(0, false))];
    let registers = vec![
        register(LOW, Output::Gate(0, false), true),
        register(LOW, Output::Gate(7, false), true),
    ];
    assert_eq!(refusal(gates, registers, Vec::new()), TopologyError::Dangling(Slot::Gate(7, false)));
}

#[test]
fn two_drivers_of_one_register_are_refused() {
    let registers = vec![
        register(LOW, Output::Register(2), true),
        register(LOW, Output::Register(2), true),
        register(LOW, Output::Register(0), false),
    ];
    assert_eq!(
        refusal(Vec::new(), registers, Vec::new()),
        TopologyError::DoubleDriver(Slot::Register(2))
    );
}

#[test]
fn two_drivers_of_one_gate_input_are_refused() {
    let gates = vec![Gate::new(Operator::And, Output::Register(0))];
    let registers = vec![register(LOW, Output::Gate(0, true), true)];
    let constants = vec![Constant::new(HIGH, Output::Gate(0, true))];
    assert_eq!(refusal(gates, registers, constants), TopologyError::DoubleDriver(Slot::Gate(0, true)));
}

#[test]
fn a_gate_that_drives_a_cell_another_gate_drives_is_refused() {
    let gates = vec![
        Gate::new(Operator::And, Output::Register(0)),
        Gate::new(Operator::Or, Output::Register(0)),
    ];
    let registers = vec![register(LOW, Output::Gate(0, true), true)];
    assert_eq!(refusal(gates, registers, Vec::new()), TopologyError::DoubleDriver(Slot::Register(0)));
}

#[test]
fn a_splitter_with_both_branches_at_one_cell_is_refused() {
    let registers = vec![register(LOW, splitter(Output::Register(0), Output::Register(0)), true)];
    assert_eq!(
        refusal(Vec::new(), registers, Vec::new()),
        TopologyError::DoubleDriver(Slot::Register(0))
    );
}

#[test]
fn the_two_inputs_of_a_gate_are_different_cells() {
    let gates = vec![Gate::new(Operator::And, Output::Register(0))];
    let registers = vec![register(LOW, splitter(Output::Gate(0, false), Output::Gate(0, true)), true)];
    assert!(build_network(gates, registers, Vec::new(), None).is_ok());
}

#[test]
fn a_gate_that_feeds_itself_is_refused() {
    let gates = vec![Gate::new(Operator::And, Output::Gate(0, false))];
    let constants = vec![Constant::new(HIGH, Output::Gate(0, true))];
    assert_eq!(refusal(gates, Vec::new(), constants), TopologyError::Loop(0));
}

#[test]
fn a_loop_of_several_gates_is_refused() {
    let gates = vec![
        Gate::new(Operator::And, Output::Register(0)),
        Gate::new(Operator::And, Output::Gate(2, false)),
        Gate::new(Operator::Or, splitter(Output::Gate(0, false), Output::Gate(3, true))),
        Gate::new(Operator::Xor, Output::Gate(1, true)),
    ];
    let registers = vec![register(LOW, Output::Gate(0, true), true)];
    assert_eq!(refusal(gates, registers, Vec::new()), TopologyError::Loop(1));
}

#[test]
fn a_gate_upstream_of_a_loop_is_named_if_it_comes_first() {
    let gates = vec![
        Gate::new(Operator::And, Output::Gate(1, false)),
        Gate::new(Operator::And, Output::Gate(2, false)),
        Gate::new(Operator::Or, Output::Gate(1, true)),
    ];
    assert_eq!(refusal(gates, Vec::new(), Vec::new()), TopologyError::Loop(0));
}

#[test]
fn a_loop_through_a_register_is_accepted() {
    let gates = vec![Gate::new(Operator::Xor, Output::Register(0))];
    let registers = vec![register(HIGH, Output::Gate(0, false), true)];
    let constants = vec![Constant::new(HIGH, Output::Gate(0, true))];
    let mut core = build(gates, registers, constants);
    core.tick(true);
    assert_eq!(core.gates()[0].state, LOW);
    assert_eq!(core.registers()[0].input, driven(METASTABLE));
}

#[test]
fn a_long_chain_of_gates_without_a_loop_is_accepted() {
    let mut gates = Vec::new();
    for index in 0..40 {
        gates.push(Gate::new(Operator::Or, Output::Gate(index + 1, false)));
    }
    gates.push(Gate::new(Operator::Or, Output::Register(0)));
    let mut constants = Vec::new();
    for index in 0..41 {
        constants.push(Constant::new(LOW, Output::Gate(index, true)));
    }
    let registers = vec![register(HIGH, Output::Gate(0, false), true)];
    let mut core = build(gates, registers, constants);
    core.tick(true);
    assert!(core.gates().iter().all(|gate| gate.state == HIGH));
    assert_eq!(core.registers()[0].input, driven(METASTABLE));
    core.tick(false);
    assert!(core
        .gates()
        .iter()
        .all(|gate| gate.state == HIGH && gate.right_input.updated && !gate.left_input.updated));
}

#[test]
fn a_tracker_of_a_node_that_does_not_exist_is_refused() {
    let registers = vec![register(LOW, Output::Register(0), true)];
    let trackers = vec![
        LogicTracker::new(LabelSource::Register(0)),
        LogicTracker::new(LabelSource::Gate(0, false)),
        LogicTracker::new(LabelSource::Register(5)),
    ];
    let inspector = Inspector::new(trackers, vec![ValueTracker::new(vec![9])], empty_tree());
    assert_eq!(
        build_network(Vec::new(), registers, Vec::new(), Some(inspector)).unwrap_err(),
        TopologyError::DanglingTracker(1)
    );
}

#[test]
fn a_value_tracker_of_a_bit_tracker_that_does_not_exist_is_refused() {
    let registers = vec![register(LOW, Output::Register(0), true)];
    let trackers = vec![LogicTracker::new(LabelSource::Register(0))];
    let values = vec![ValueTracker::new(vec![0, 0]), ValueTracker::new(vec![0, 1])];
    let inspector = Inspector::new(trackers, values, empty_tree());
    assert_eq!(
        build_network(Vec::new(), registers, Vec::new(), Some(inspector)).unwrap_err(),
        TopologyError::DanglingValueTracker(1)
    );
}

#[test]
fn a_bad_topology_is_reported_before_a_bad_recorder() {
    let registers = vec![register(LOW, Output::Register(3), true)];
    let inspector =
        Inspector::new(vec![LogicTracker::new(LabelSource::Register(5))], Vec::new(), empty_tree());
    assert_eq!(
        build_network(Vec::new(), registers, Vec::new(), Some(inspector)).unwrap_err(),
        TopologyError::Dangling(Slot::Register(3))
    );
}

#[test]
fn a_built_core_records_with_the_recorder_it_was_given() {
    let registers = vec![
        register(HIGH, Output::Register(1), true),
        register(LOW, Output::Register(0), false),
    ];
    let trackers =
        vec![LogicTracker::new(LabelSource::Register(0)), LogicTracker::new(LabelSource::Register(1))];
    let inspector = Inspector::new(trackers, vec![ValueTracker::new(vec![0, 1])], empty_tree());
    let mut core = build_network(Vec::new(), registers, Vec::new(), Some(inspector)).unwrap();
    core.tick(true);
    core.tick(false);
    core.tick(true);
    let inspector = core.inspector().unwrap();
    assert_eq!(inspector.history(0), Some(&vec![HIGH, HIGH, HIGH]));
    assert_eq!(inspector.history(1), Some(&vec![LOW, HIGH, HIGH]));
    assert_eq!(
        inspector.value_history(0),
        Some((&vec![ValueState::Stable(2), ValueState::Stable(3), ValueState::Stable(3)], 2))
    );
}

#[test]
fn the_first_dangling_end_of_the_scan_is_the_one_reported() {
    let gates = vec![Gate::new(Operator::And, Output::Register(9))];
    let registers = vec![
        register(LOW, splitter(Output::Gate(0, false), splitter(Output::Gate(4, true), Output::Register(5))), true),
        register(LOW, Output::Register(6), true),
    ];
    let constants = vec![Constant::new(HIGH, Output::Gate(0, true))];
    assert_eq!(
        refusal(gates.clone(), registers.clone(), constants),
        TopologyError::Dangling(Slot::Gate(4, true))
    );
    let constants = vec![Constant::new(HIGH, splitter(Output::Gate(0, true), Output::Gate(8, false)))];
    assert_eq!(refusal(gates, registers, constants), TopologyError::Dangling(Slot::Gate(8, false)));
}

#[test]
fn the_first_end_at_a_taken_cell_is_the_one_reported() {
    let gates = vec![
        Gate::new(Operator::And, Output::Register(1)),
        Gate::new(Operator::And, Output::Register(1)),
    ];
    let registers = vec![
        register(LOW, splitter(Output::Gate(0, false), Output::Gate(1, false)), true),
        register(LOW, splitter(Output::Gate(1, true), Output::Gate(0, false)), true),
    ];
    let constants = vec![Constant::new(HIGH, Output::Gate(1, true))];
    assert_eq!(
        refusal(gates.clone(), registers.clone(), constants),
        TopologyError::DoubleDriver(Slot::Gate(1, true))
    );
    assert_eq!(
        refusal(gates.clone(), registers, Vec::new()),
        TopologyError::DoubleDriver(Slot::Gate(0, false))
    );
    let registers = vec![
        register(LOW, Output::Gate(0, false), true),
        register(LOW, Output::Gate(1, true), true),
    ];
    assert_eq!(refusal(gates, registers, Vec::new()), TopologyError::DoubleDriver(Slot::Register(1)));
}

#[test]
fn two_drivers_are_reported_before_a_loop() {
    let gates = vec![
        Gate::new(Operator::And, Output::Gate(0, false)),
        Gate::new(Operator::And, Output::Gate(0, false)),
    ];
    assert_eq!(
        refusal(gates, Vec::new(), Vec::new()),
        TopologyError::DoubleDriver(Slot::Gate(0, false))
    );
}

#[test]
fn the_first_stray_tracker_is_the_one_reported() {
    let registers = vec![register(LOW, Output::Register(0), true)];
    let trackers = vec![
        LogicTracker::new(LabelSource::Register(0)),
        LogicTracker::new(LabelSource::Register(1)),
        LogicTracker::new(LabelSource::Gate(0, true)),
    ];
    let inspector = Inspector::new(trackers, Vec::new(), empty_tree());
    assert_eq!(
        build_network(Vec::new(), registers, Vec::new(), Some(inspector)).unwrap_err(),
        TopologyError::DanglingTracker(1)
    );
}

#[test]
fn the_checks_of_a_recorder_agree_with_what_is_built() {
    let trackers = vec![LogicTracker::new(LabelSource::Gate(1, true))];
    let values = vec![ValueTracker::new(vec![0]), ValueTracker::new(vec![0, 3, 0])];
    let inspector = Inspector::new(trackers, values, empty_tree());
    assert_eq!(inspector.check(0, 2), Some(TopologyError::DanglingValueTracker(1)));
    assert_eq!(inspector.check(5, 1), Some(TopologyError::DanglingTracker(0)));
    let inspector = Inspector::new(
        vec![LogicTracker::new(LabelSource::Gate(1, true))],
        vec![ValueTracker::new(vec![0])],
        empty_tree(),
    );
    assert_eq!(inspector.check(0, 2), None);
}

#[test]
fn the_loop_back_branch_of_the_loaded_circuit_is_joined_by_and() {
    let mut core = Core::load(String::from("test.logic"), false);
    core.tick(true);
    core.tick(false);
    for (position, level) in [HIGH, HIGH, LOW].into_iter().enumerate() {
        let gate = &core.gates()[3 + position];
        assert_eq!(gate.operator, Operator::And);
        assert_eq!(gate.left_input, driven(level));
        assert_eq!(gate.right_input, driven(HIGH));
        assert_eq!(gate.state, level);
        assert_eq!(core.registers()[3 + position].input, driven(level));
        assert_eq!(core.registers()[position].input, driven(level));
    }
}

#[test]
fn a_cell_that_is_not_driven_keeps_its_level_over_a_tick() {
    let mut core = Core::load(String::from("test.logic"), false);
    core.tick(true);
    let before: Vec<_> = core.registers().iter().map(|register| register.input).collect();
    let gates_before = core.gates().clone();
    core.tick(false);
    for index in 6..9 {
        assert_eq!(core.registers()[index].input, idle(before[index].state));
    }
    for index in 0..3 {
        assert_eq!(core.gates()[index].left_input, idle(gates_before[index].left_input.state));
        assert_eq!(core.gates()[index].right_input, idle(gates_before[index].right_input.state));
        assert_eq!(core.gates()[index].state, gates_before[index].state);
    }
}
