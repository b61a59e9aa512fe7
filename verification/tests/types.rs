use emulator::{Color, Key};

#[test]
fn a_color_keeps_its_parts() {
    let color = Color::from(100, 150, 200);
    assert_eq!(color, Color { red: 100, green: 150, blue: 200 });
    assert_eq!(Color::from(0, 0, 255).blue, 255);
}

#[test]
fn monochrome_is_the_same_in_every_part() {
    assert_eq!(Color::monochrome(25), Color { red: 25, green: 25, blue: 25 });
    assert_eq!(Color::monochrome(0), Color::from(0, 0, 0));
    assert_eq!(Color::monochrome(255), Color::from(255, 255, 255));
}

#[test]
fn the_space_bar_and_the_letter_t_have_key_codes() {
    assert_eq!(Key::from_code(32), Some(Key::Space));
    assert_eq!(Key::from_code(84), Some(Key::T));
}

#[test]
fn other_key_codes_are_no_keys() {
    for code in [0, 31, 33, 83, 85, 116, usize::MAX] {
        assert_eq!(Key::from_code(code), None);
    }
}
