//! How levels and values are written out and colored.

use vstd::prelude::*;
use vstd::string::StringExecFns;
use super::item::Formatting;
use super::Inspector;
use crate::logic::logic::LogicState;
use crate::logic::value::ValueState;
use crate::types::color::Color;

verus! {

/// The color of a binary level.
pub open spec fn stable_color() -> Color {
    Color { red: 100, green: 150, blue: 100 }
}

/// The color of a metastable level or value.
pub open spec fn metastable_color() -> Color {
    Color { red: 250, green: 100, blue: 100 }
}

/// The color of a floating level or value.
pub open spec fn floating_color() -> Color {
    Color { red: 150, green: 100, blue: 100 }
}

/// The color of a number.
pub open spec fn value_color() -> Color {
    Color { red: 100, green: 100, blue: 150 }
}

/// The character for a digit below sixteen: a decimal digit, or a lower-case
/// letter from `a` for ten on.
pub open spec fn digit(value: nat) -> char
    recommends
        value < 16,
{
    if value == 0 {
        '0'
    } else if value == 1 {
        '1'
    } else if value == 2 {
        '2'
    } else if value == 3 {
        '3'
    } else if value == 4 {
        '4'
    } else if value == 5 {
        '5'
    } else if value == 6 {
        '6'
    } else if value == 7 {
        '7'
    } else if value == 8 {
        '8'
    } else if value == 9 {
        '9'
    } else if value == 10 {
        'a'
    } else if value == 11 {
        'b'
    } else if value == 12 {
        'c'
    } else if value == 13 {
        'd'
    } else if value == 14 {
        'e'
    } else {
        'f'
    }
}

/// The digits of a number to a base from two to sixteen, the most
/// significant first and without leading zeros.
pub open spec fn digits(value: nat, base: nat) -> Seq<char>
    recommends
        2 <= base <= 16,
    decreases value,
{
    if value < base || base < 2 {
        seq![digit(value)]
    } else {
        proof {
            vstd::arithmetic::div_mod::lemma_div_decreases(value as int, base as int);
        }
        digits(value / base, base).push(digit(value % base))
    }
}

/// The given text with as many zeros before it as it takes to make it
/// `width` characters wide.
pub open spec fn zero_padded(text: Seq<char>, width: nat) -> Seq<char> {
    if text.len() >= width {
        text
    } else {
        Seq::new((width - text.len()) as nat, |index: int| '0') + text
    }
}

/// A value written out: a number in the given formatting, binary numbers
/// with leading zeros up to the given width, and the other two kinds of
/// value by name.
pub open spec fn value_text(value: ValueState, formatting: Formatting, width: nat) -> Seq<char> {
    match value {
        ValueState::Stable(number) => match formatting {
            Formatting::Binary => zero_padded(digits(number as nat, 2), width),
            Formatting::SignedDecimal => digits(number as nat, 10),
            Formatting::UnsignedDecimal => digits(number as nat, 10),
            Formatting::Hexadecimal => digits(number as nat, 16),
        },
        ValueState::Metastable => "metastable"@,
        ValueState::Floating => "floating"@,
    }
}

/// The text of a digit below sixteen.
fn digit_text(value: u64) -> (text: &'static str)
    requires
        value < 16,
    ensures
        text@ == seq![digit(value as nat)],
{
    proof {
        reveal_strlit("0");
        reveal_strlit("1");
        reveal_strlit("2");
        reveal_strlit("3");
        reveal_strlit("4");
        reveal_strlit("5");
        reveal_strlit("6");
        reveal_strlit("7");
        reveal_strlit("8");
        reveal_strlit("9");
        reveal_strlit("a");
        reveal_strlit("b");
        reveal_strlit("c");
        reveal_strlit("d");
        reveal_strlit("e");
        reveal_strlit("f");
    }
    let text = match value {
        0 => "0",
        1 => "1",
        2 => "2",
        3 => "3",
        4 => "4",
        5 => "5",
        6 => "6",
        7 => "7",
        8 => "8",
        9 => "9",
        10 => "a",
        11 => "b",
        12 => "c",
        13 => "d",
        14 => "e",
        _ => "f",
    };
    assert(text@ =~= seq![digit(value as nat)]);
    text
}

/// Appends the digits of a number to a base from two to sixteen, with as
/// many zeros before them as it takes to make them `width` characters wide.
fn write_padded(text: &mut String, value: u64, base: u64, width: usize)
    requires
        2 <= base <= 16,
    ensures
        final(text)@ == old(text)@ + zero_padded(digits(value as nat, base as nat), width as nat),
    decreases value,
{
    if value >= base {
        proof {
            vstd::arithmetic::div_mod::lemma_div_decreases(value as int, base as int);
        }
        let less = if width > 0 {
            width - 1
        } else {
            0
        };
        write_padded(text, value / base, base, less);
        text.append(digit_text(value % base));
        assert(text@ =~= old(text)@ + zero_padded(digits(value as nat, base as nat), width as nat));
    } else {
        let mut written: usize = 1;
        while written < width
            invariant
                1 <= written,
                written <= width || written == 1,
                text@ == old(text)@ + Seq::new((written - 1) as nat, |index: int| '0'),
            decreases width - written,
        {
            proof {
                reveal_strlit("0");
            }
            text.append("0");
            written += 1;
            assert(text@ =~= old(text)@ + Seq::new((written - 1) as nat, |index: int| '0'));
        }
        text.append(digit_text(value));
        assert(text@ =~= old(text)@ + zero_padded(digits(value as nat, base as nat), width as nat));
    }
}

impl Inspector {
    /// The name of a level.
    pub fn get_state_text(state: &LogicState) -> (text: &'static str)
        ensures
            text == match *state {
                LogicState::High => "high",
                LogicState::Low => "low",
                LogicState::Metastable => "metastable",
                LogicState::Floating => "floating",
            },
    {
        match state {
            LogicState::High => "high",
            LogicState::Low => "low",
            LogicState::Metastable => "metastable",
            LogicState::Floating => "floating",
        }
    }

    /// The color that a level is shown in.
    pub fn get_state_color(state: &LogicState) -> (color: Color)
        ensures
            color == match *state {
                LogicState::High => stable_color(),
                LogicState::Low => stable_color(),
                LogicState::Metastable => metastable_color(),
                LogicState::Floating => floating_color(),
            },
    {
        match state {
            LogicState::High => Color::from(100, 150, 100),
            LogicState::Low => Color::from(100, 150, 100),
            LogicState::Metastable => Color::from(250, 100, 100),
            LogicState::Floating => Color::from(150, 100, 100),
        }
    }

    /// The color that a value is shown in.
    pub fn get_value_color(value: &ValueState) -> (color: Color)
        ensures
            color == match *value {
                ValueState::Stable(_) => value_color(),
                ValueState::Metastable => metastable_color(),
                ValueState::Floating => floating_color(),
            },
    {
        match value {
            ValueState::Stable(..) => Color::from(100, 100, 150),
            ValueState::Metastable => Color::from(250, 100, 100),
            ValueState::Floating => Color::from(150, 100, 100),
        }
    }

    /// A value written out in the given formatting, where `length` is the
    /// number of bits that the value is made of.
    pub fn get_value_text(value: &ValueState, formatting: Formatting, length: usize) -> (text:
        String)
        ensures
            text@ == value_text(*value, formatting, length as nat),
    {
        match value {
            ValueState::Stable(number) => {
                let mut text = String::new();
                match formatting {
                    Formatting::Binary => {
                        write_padded(&mut text, *number, 2, length);
                    },
                    Formatting::SignedDecimal => {
                        write_padded(&mut text, *number, 10, 0);
                    },
                    Formatting::UnsignedDecimal => {
                        write_padded(&mut text, *number, 10, 0);
                    },
                    Formatting::Hexadecimal => {
                        write_padded(&mut text, *number, 16, 0);
                    },
                }
                assert(text@ =~= value_text(*value, formatting, length as nat));
                text
            },
            ValueState::Metastable => "metastable".to_owned(),
            ValueState::Floating => "floating".to_owned(),
        }
    }
}

} // verus!
