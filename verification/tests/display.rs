use emulator::{Color, Formatting, Inspector, LogicState, ValueState};

#[test]
fn binary_numbers_are_padded_to_the_number_of_bits() {
    assert_eq!(Inspector::get_value_text(&ValueState::Stable(5), Formatting::Binary, 3), "101");
    assert_eq!(Inspector::get_value_text(&ValueState::Stable(5), Formatting::Binary, 8), "00000101");
    assert_eq!(Inspector::get_value_text(&ValueState::Stable(1), Formatting::Binary, 3), "001");
    assert_eq!(Inspector::get_value_text(&ValueState::Stable(0), Formatting::Binary, 3), "000");
}

#[test]
fn binary_numbers_that_are_wider_are_not_cut() {
    assert_eq!(Inspector::get_value_text(&ValueState::Stable(5), Formatting::Binary, 2), "101");
    assert_eq!(Inspector::get_value_text(&ValueState::Stable(5), Formatting::Binary, 0), "101");
    assert_eq!(Inspector::get_value_text(&ValueState::Stable(0), Formatting::Binary, 0), "0");
    assert_eq!(Inspector::get_value_text(&ValueState::Stable(0), Formatting::Binary, 1), "0");
    assert_eq!(
        Inspector::get_value_text(&ValueState::Stable(u64::MAX), Formatting::Binary, 3),
        "1".repeat(64)
    );
}

#[test]
fn decimal_numbers_are_written_without_padding() {
    assert_eq!(Inspector::get_value_text(&ValueState::Stable(0), Formatting::UnsignedDecimal, 3), "0");
    assert_eq!(Inspector::get_value_text(&ValueState::Stable(7), Formatting::SignedDecimal, 3), "7");
    assert_eq!(Inspector::get_value_text(&ValueState::Stable(1234567890), Formatting::UnsignedDecimal, 64), "1234567890");
    assert_eq!(
        Inspector::get_value_text(&ValueState::Stable(u64::MAX), Formatting::SignedDecimal, 64),
        "18446744073709551615"
    );
}

#[test]
fn hexadecimal_numbers_are_written_in_lower_case() {
    assert_eq!(Inspector::get_value_text(&ValueState::Stable(0), Formatting::Hexadecimal, 8), "0");
    assert_eq!(Inspector::get_value_text(&ValueState::Stable(255), Formatting::Hexadecimal, 8), "ff");
    assert_eq!(Inspector::get_value_text(&ValueState::Stable(0xdeadbeef), Formatting::Hexadecimal, 32), "deadbeef");
    assert_eq!(Inspector::get_value_text(&ValueState::Stable(0x1234567890abcdef), Formatting::Hexadecimal, 0), "1234567890abcdef");
}

#[test]
fn values_that_are_no_numbers_are_written_by_name() {
    for formatting in [
        Formatting::Binary,
        Formatting::SignedDecimal,
        Formatting::UnsignedDecimal,
        Formatting::Hexadecimal,
    ] {
        assert_eq!(Inspector::get_value_text(&ValueState::Metastable, formatting, 3), "metastable");
        assert_eq!(Inspector::get_value_text(&ValueState::Floating, formatting, 3), "floating");
    }
}

#[test]
fn numbers_are_written_as_the_standard_formatter_writes_them() {
    let numbers = [0u64, 1, 2, 9, 10, 15, 16, 99, 100, 255, 256, 4095, 65535, 1 << 40, u64::MAX - 1, u64::MAX];
    for number in numbers {
        for width in [0usize, 1, 3, 8, 64, 70] {
            assert_eq!(
                Inspector::get_value_text(&ValueState::Stable(number), Formatting::Binary, width),
                format!("{:0width$b}", number, width = width)
            );
        }
        assert_eq!(
            Inspector::get_value_text(&ValueState::Stable(number), Formatting::UnsignedDecimal, 5),
            format!("{}", number)
        );
        assert_eq!(
            Inspector::get_value_text(&ValueState::Stable(number), Formatting::Hexadecimal, 5),
            format!("{:x}", number)
        );
    }
}

#[test]
fn levels_are_written_by_name() {
    assert_eq!(Inspector::get_state_text(&LogicState::High), "high");
    assert_eq!(Inspector::get_state_text(&LogicState::Low), "low");
    assert_eq!(Inspector::get_state_text(&LogicState::Metastable), "metastable");
    assert_eq!(Inspector::get_state_text(&LogicState::Floating), "floating");
}

#[test]
fn levels_and_values_have_their_colors() {
    assert_eq!(Inspector::get_state_color(&LogicState::High), Color::from(100, 150, 100));
    assert_eq!(Inspector::get_state_color(&LogicState::Low), Color::from(100, 150, 100));
    assert_eq!(Inspector::get_state_color(&LogicState::Metastable), Color::from(250, 100, 100));
    assert_eq!(Inspector::get_state_color(&LogicState::Floating), Color::from(150, 100, 100));
    assert_eq!(Inspector::get_value_color(&ValueState::Stable(3)), Color::from(100, 100, 150));
    assert_eq!(Inspector::get_value_color(&ValueState::Metastable), Color::from(250, 100, 100));
    assert_eq!(Inspector::get_value_color(&ValueState::Floating), Color::from(150, 100, 100));
}
