use emulator::{LogicState, Operator};

const LEVELS: [LogicState; 4] =
    [LogicState::High, LogicState::Low, LogicState::Floating, LogicState::Metastable];
const OPERATORS: [Operator; 3] = [Operator::And, Operator::Or, Operator::Xor];

#[test]
fn and_follows_its_truth_table() {
    let high = LogicState::High;
    let low = LogicState::Low;
    assert_eq!(high.operator(high, Operator::And), high);
    assert_eq!(high.operator(low, Operator::And), low);
    assert_eq!(low.operator(high, Operator::And), low);
    assert_eq!(low.operator(low, Operator::And), low);
}

#[test]
fn or_follows_its_truth_table() {
    let high = LogicState::High;
    let low = LogicState::Low;
    assert_eq!(high.operator(high, Operator::Or), high);
    assert_eq!(high.operator(low, Operator::Or), high);
    assert_eq!(low.operator(high, Operator::Or), high);
    assert_eq!(low.operator(low, Operator::Or), low);
}

#[test]
fn xor_follows_its_truth_table() {
    let high = LogicState::High;
    let low = LogicState::Low;
    assert_eq!(high.operator(high, Operator::Xor), low);
    assert_eq!(high.operator(low, Operator::Xor), high);
    assert_eq!(low.operator(high, Operator::Xor), high);
    assert_eq!(low.operator(low, Operator::Xor), low);
}

#[test]
fn binary_operands_agree_with_boolean_operators() {
    for left in [false, true] {
        for right in [false, true] {
            let a = LogicState::from_boolean(left);
            let b = LogicState::from_boolean(right);
            assert_eq!(a.operator(b, Operator::And), LogicState::from_boolean(left & right));
            assert_eq!(a.operator(b, Operator::Or), LogicState::from_boolean(left | right));
            assert_eq!(a.operator(b, Operator::Xor), LogicState::from_boolean(left ^ right));
        }
    }
}

#[test]
fn floating_dominates_on_either_side() {
    for other in LEVELS {
        for operator in OPERATORS {
            assert_eq!(LogicState::Floating.operator(other, operator), LogicState::Floating);
            assert_eq!(other.operator(LogicState::Floating, operator), LogicState::Floating);
        }
    }
}

#[test]
fn floating_beats_metastable() {
    assert_eq!(
        LogicState::Floating.operator(LogicState::Metastable, Operator::Or),
        LogicState::Floating
    );
    assert_eq!(
        LogicState::Metastable.operator(LogicState::Floating, Operator::And),
        LogicState::Floating
    );
}

#[test]
fn metastable_dominates_all_but_floating() {
    for other in [LogicState::High, LogicState::Low, LogicState::Metastable] {
        for operator in OPERATORS {
            assert_eq!(LogicState::Metastable.operator(other, operator), LogicState::Metastable);
            assert_eq!(other.operator(LogicState::Metastable, operator), LogicState::Metastable);
        }
    }
}

#[test]
fn metastable_is_not_absorbed_by_a_deciding_operand() {
    assert_eq!(
        LogicState::Low.operator(LogicState::Metastable, Operator::And),
        LogicState::Metastable
    );
    assert_eq!(
        LogicState::High.operator(LogicState::Metastable, Operator::Or),
        LogicState::Metastable
    );
}

#[test]
fn from_boolean_gives_the_binary_levels() {
    assert_eq!(LogicState::from_boolean(true), LogicState::High);
    assert_eq!(LogicState::from_boolean(false), LogicState::Low);
}

#[test]
fn to_boolean_reads_the_binary_levels() {
    assert!(LogicState::High.to_boolean());
    assert!(!LogicState::Low.to_boolean());
}

#[test]
fn to_boolean_undoes_from_boolean() {
    for state in [false, true] {
        assert_eq!(LogicState::from_boolean(state).to_boolean(), state);
    }
}

#[test]
fn is_floating_holds_of_floating_only() {
    assert!(LogicState::Floating.is_floating());
    assert!(!LogicState::High.is_floating());
    assert!(!LogicState::Low.is_floating());
    assert!(!LogicState::Metastable.is_floating());
}

#[test]
fn is_metastable_holds_of_metastable_only() {
    assert!(LogicState::Metastable.is_metastable());
    assert!(!LogicState::High.is_metastable());
    assert!(!LogicState::Low.is_metastable());
    assert!(!LogicState::Floating.is_metastable());
}
