use emulator::{
    Formatting, Gate, Group, Input, Inspector, InspectorItem, Key, Label, LabelSource, LogicState,
    LogicTracker, Operator, Output, Register, Tracker, ValueState, ValueTracker,
};

fn empty_tree() -> InspectorItem {
    InspectorItem::Group(Group::new("core", None, Vec::new()))
}

fn sampled(source: LabelSource, states: Vec<LogicState>) -> LogicTracker {
    LogicTracker { source: source, states: states }
}

/// A recorder whose bit trackers have the given latest samples, in order,
/// and one value tracker over all of them, most significant first.
fn over_bits(bits: &[LogicState]) -> Inspector {
    let trackers: Vec<LogicTracker> =
        bits.iter().map(|bit| sampled(LabelSource::Register(0), vec![LogicState::Low, *bit])).collect();
    let positions: Vec<usize> = (0..bits.len()).collect();
    Inspector::new(trackers, vec![ValueTracker::new(positions)], empty_tree())
}

fn register(state: LogicState) -> Register {
    Register::new(Input::new(state), Output::Register(0), true)
}

#[test]
fn high_low_high_reads_as_five() {
    let inspector = over_bits(&[LogicState::High, LogicState::Low, LogicState::High]);
    assert_eq!(inspector.get_value_state(0), ValueState::Stable(5));
}

#[test]
fn a_metastable_bit_makes_the_value_metastable() {
    let inspector = over_bits(&[LogicState::High, LogicState::Metastable, LogicState::High]);
    assert_eq!(inspector.get_value_state(0), ValueState::Metastable);
}

#[test]
fn a_floating_bit_makes_the_value_floating() {
    let inspector = over_bits(&[LogicState::High, LogicState::Floating, LogicState::High]);
    assert_eq!(inspector.get_value_state(0), ValueState::Floating);
}

#[test]
fn the_first_bit_that_is_not_binary_decides() {
    let inspector = over_bits(&[LogicState::Floating, LogicState::Metastable, LogicState::High]);
    assert_eq!(inspector.get_value_state(0), ValueState::Floating);
    let inspector = over_bits(&[LogicState::Low, LogicState::Metastable, LogicState::Floating]);
    assert_eq!(inspector.get_value_state(0), ValueState::Metastable);
    let inspector = over_bits(&[LogicState::High, LogicState::High, LogicState::Metastable]);
    assert_eq!(inspector.get_value_state(0), ValueState::Metastable);
}

#[test]
fn the_most_significant_bit_comes_first() {
    let inspector = over_bits(&[LogicState::High, LogicState::Low, LogicState::Low]);
    assert_eq!(inspector.get_value_state(0), ValueState::Stable(4));
    let inspector = over_bits(&[LogicState::Low, LogicState::Low, LogicState::High]);
    assert_eq!(inspector.get_value_state(0), ValueState::Stable(1));
    let inspector = over_bits(&[LogicState::Low, LogicState::High, LogicState::High, LogicState::Low]);
    assert_eq!(inspector.get_value_state(0), ValueState::Stable(6));
}

#[test]
fn no_bits_read_as_zero() {
    let inspector = over_bits(&[]);
    assert_eq!(inspector.get_value_state(0), ValueState::Stable(0));
}

#[test]
fn sixty_four_high_bits_fill_the_value() {
    let inspector = over_bits(&[LogicState::High; 64]);
    assert_eq!(inspector.get_value_state(0), ValueState::Stable(u64::MAX));
}

#[test]
fn bits_beyond_sixty_four_drop_off_the_top() {
    let mut bits = vec![LogicState::High];
    bits.extend([LogicState::Low; 64]);
    let inspector = over_bits(&bits);
    assert_eq!(inspector.get_value_state(0), ValueState::Stable(0));
    let mut bits = vec![LogicState::High; 3];
    bits.extend([LogicState::Low; 62]);
    bits.push(LogicState::High);
    let inspector = over_bits(&bits);
    assert_eq!(inspector.get_value_state(0), ValueState::Stable((1 << 63) + 1));
}

#[test]
fn a_value_tracker_reads_the_latest_sample_of_each_bit() {
    let trackers = vec![
        sampled(LabelSource::Register(0), vec![LogicState::Low, LogicState::High]),
        sampled(LabelSource::Register(0), vec![LogicState::Metastable, LogicState::High]),
    ];
    let inspector = Inspector::new(trackers, vec![ValueTracker::new(vec![1, 0])], empty_tree());
    assert_eq!(inspector.get_value_state(0), ValueState::Stable(3));
}

#[test]
fn a_value_tracker_may_name_a_bit_twice_and_in_any_order() {
    let trackers = vec![
        sampled(LabelSource::Register(0), vec![LogicState::High]),
        sampled(LabelSource::Register(0), vec![LogicState::Low]),
    ];
    let inspector = Inspector::new(trackers, vec![ValueTracker::new(vec![0, 1, 0, 0])], empty_tree());
    assert_eq!(inspector.get_value_state(0), ValueState::Stable(0b1011));
}

#[test]
fn new_trackers_have_no_history() {
    let tracker = LogicTracker::new(LabelSource::Gate(3, true));
    assert_eq!(tracker.source, LabelSource::Gate(3, true));
    assert!(tracker.states.is_empty());
    let tracker: Tracker = Tracker::new(LabelSource::Register(1));
    assert_eq!(tracker.source, LabelSource::Register(1));
    assert!(tracker.states.is_empty());
    let tracker = ValueTracker::new(vec![2, 1, 0]);
    assert_eq!(tracker.trackers, vec![2, 1, 0]);
    assert!(tracker.states.is_empty());
}

#[test]
fn a_source_observes_the_latched_level_of_a_register() {
    let mut registers = vec![register(LogicState::High), register(LogicState::Low)];
    registers[1].input.update(LogicState::Metastable);
    let gates: Vec<Gate> = Vec::new();
    assert_eq!(LabelSource::Register(0).get_state(&registers, &gates), LogicState::High);
    assert_eq!(LabelSource::Register(1).get_state(&registers, &gates), LogicState::Low);
    registers[1].reset();
    assert_eq!(LabelSource::Register(1).get_state(&registers, &gates), LogicState::Metastable);
}

#[test]
fn a_source_observes_one_input_of_a_gate() {
    let registers: Vec<Register> = Vec::new();
    let mut gates = vec![
        Gate::new(Operator::And, Output::Gate(1, false)),
        Gate::new(Operator::And, Output::Gate(0, false)),
    ];
    gates[1].left_input.update(LogicState::High);
    gates[1].right_input.update(LogicState::Low);
    gates[1].state = LogicState::Metastable;
    assert_eq!(LabelSource::Gate(1, false).get_state(&registers, &gates), LogicState::High);
    assert_eq!(LabelSource::Gate(1, true).get_state(&registers, &gates), LogicState::Low);
    assert_eq!(LabelSource::Gate(0, false).get_state(&registers, &gates), LogicState::Floating);
}

#[test]
fn a_source_knows_whether_its_node_exists() {
    assert!(LabelSource::Register(2).exists_in(3, 0));
    assert!(!LabelSource::Register(3).exists_in(3, 9));
    assert!(LabelSource::Gate(0, true).exists_in(0, 1));
    assert!(!LabelSource::Gate(1, false).exists_in(9, 1));
}

#[test]
fn update_appends_one_sample_to_every_tracker() {
    let registers = vec![register(LogicState::High), register(LogicState::Low), register(LogicState::High)];
    let mut gates = vec![Gate::new(Operator::And, Output::Register(0))];
    gates[0].right_input.update(LogicState::Metastable);
    let trackers = vec![
        LogicTracker::new(LabelSource::Register(0)),
        LogicTracker::new(LabelSource::Register(1)),
        LogicTracker::new(LabelSource::Register(2)),
        LogicTracker::new(LabelSource::Gate(0, true)),
        LogicTracker::new(LabelSource::Gate(0, false)),
    ];
    let values = vec![
        ValueTracker::new(vec![0, 1, 2]),
        ValueTracker::new(vec![0, 3, 2]),
        ValueTracker::new(vec![4, 3]),
        ValueTracker::new(vec![]),
    ];
    let mut inspector = Inspector::new(trackers, values, empty_tree());
    assert_eq!(inspector.latest_state(0), None);
    assert_eq!(inspector.latest_value(0), None);
    inspector.update(&registers, &gates);
    assert_eq!(inspector.history(0), Some(&vec![LogicState::High]));
    assert_eq!(inspector.history(1), Some(&vec![LogicState::Low]));
    assert_eq!(inspector.history(2), Some(&vec![LogicState::High]));
    assert_eq!(inspector.history(3), Some(&vec![LogicState::Metastable]));
    assert_eq!(inspector.history(4), Some(&vec![LogicState::Floating]));
    assert_eq!(inspector.latest_value(0), Some(ValueState::Stable(5)));
    assert_eq!(inspector.latest_value(1), Some(ValueState::Metastable));
    assert_eq!(inspector.latest_value(2), Some(ValueState::Floating));
    assert_eq!(inspector.latest_value(3), Some(ValueState::Stable(0)));
}

#[test]
fn histories_grow_by_one_sample_per_update_and_keep_what_they_had() {
    let mut registers = vec![register(LogicState::High), register(LogicState::High)];
    let gates: Vec<Gate> = Vec::new();
    let trackers =
        vec![LogicTracker::new(LabelSource::Register(0)), LogicTracker::new(LabelSource::Register(1))];
    let mut inspector = Inspector::new(trackers, vec![ValueTracker::new(vec![0, 1])], empty_tree());
    inspector.update(&registers, &gates);
    registers[1].state = LogicState::Low;
    inspector.update(&registers, &gates);
    registers[0].state = LogicState::Floating;
    inspector.update(&registers, &gates);
    assert_eq!(
        inspector.history(0),
        Some(&vec![LogicState::High, LogicState::High, LogicState::Floating])
    );
    assert_eq!(inspector.history(1), Some(&vec![LogicState::High, LogicState::Low, LogicState::Low]));
    assert_eq!(
        inspector.value_history(0),
        Some((&vec![ValueState::Stable(3), ValueState::Stable(2), ValueState::Floating], 2))
    );
    assert_eq!(inspector.latest_state(0), Some(LogicState::Floating));
    assert_eq!(inspector.latest_state(1), Some(LogicState::Low));
    assert_eq!(inspector.latest_value(0), Some(ValueState::Floating));
    assert_eq!(inspector.history(0), inspector.history(0));
}

#[test]
fn queries_for_trackers_that_do_not_exist_give_nothing() {
    let inspector = Inspector::new(
        vec![LogicTracker::new(LabelSource::Register(0))],
        vec![ValueTracker::new(vec![0])],
        empty_tree(),
    );
    assert_eq!(inspector.logic_tracker_count(), 1);
    assert_eq!(inspector.value_tracker_count(), 1);
    assert_eq!(inspector.latest_state(1), None);
    assert_eq!(inspector.latest_value(1), None);
    assert_eq!(inspector.history(1), None);
    assert_eq!(inspector.value_history(1), None);
    assert_eq!(inspector.history(0), Some(&Vec::new()));
    assert_eq!(inspector.value_history(0), Some((&Vec::new(), 1)));
}

#[test]
fn the_letter_t_switches_the_histories_on_and_off() {
    let mut inspector = Inspector::new(Vec::new(), Vec::new(), empty_tree());
    assert!(inspector.show_trackers());
    inspector.handle_key_input(Key::T);
    assert!(!inspector.show_trackers());
    inspector.handle_key_input(Key::Space);
    assert!(!inspector.show_trackers());
    inspector.handle_key_input(Key::T);
    assert!(inspector.show_trackers());
}

#[test]
fn groups_and_labels_keep_what_they_are_made_of() {
    let label = Label::new("register 0", 7);
    assert_eq!(label.identifier, "register 0");
    assert_eq!(label.tracker, 7);
    let group = Group::new(
        "input 0",
        Some((1, Formatting::Hexadecimal)),
        vec![InspectorItem::Label(label.clone()), InspectorItem::Label(Label::new("register 1", 8))],
    );
    assert_eq!(group.identifier, "input 0");
    assert_eq!(group.tracker, Some((1, Formatting::Hexadecimal)));
    assert!(group.expanded);
    assert_eq!(group.items.len(), 2);
    let copy = group.clone();
    assert_eq!(copy.identifier, "input 0");
    assert_eq!(copy.tracker, Some((1, Formatting::Hexadecimal)));
    assert!(copy.expanded);
    match &copy.items[1] {
        InspectorItem::Label(label) => {
            assert_eq!(label.identifier, "register 1");
            assert_eq!(label.tracker, 8);
        },
        InspectorItem::Group(_) => panic!("a label was cloned into a group"),
    }
}

#[test]
fn the_recorder_hands_out_its_tree() {
    let tree = InspectorItem::Group(Group::new(
        "core",
        None,
        vec![InspectorItem::Label(Label::new("register 0", 0))],
    ));
    let inspector = Inspector::new(Vec::new(), Vec::new(), tree);
    match inspector.root_item() {
        InspectorItem::Group(group) => {
            assert_eq!(group.identifier, "core");
            assert_eq!(group.items.len(), 1);
        },
        InspectorItem::Label(_) => panic!("the root is a group"),
    }
}
