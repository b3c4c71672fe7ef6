//! Whole numbers in decimal.

use vstd::prelude::*;

verus! {

/// The character string of one decimal digit.
pub open spec fn digit_text(digit: nat) -> Seq<char> {
    if digit == 0 {
        "0"@
    } else if digit == 1 {
        "1"@
    } else if digit == 2 {
        "2"@
    } else if digit == 3 {
        "3"@
    } else if digit == 4 {
        "4"@
    } else if digit == 5 {
        "5"@
    } else if digit == 6 {
        "6"@
    } else if digit == 7 {
        "7"@
    } else if digit == 8 {
        "8"@
    } else {
        "9"@
    }
}

/// `value` in decimal, without leading zeros.
pub open spec fn decimal_text(value: nat) -> Seq<char>
    decreases value,
{
    if value < 10 {
        digit_text(value)
    } else {
        decimal_text(value / 10) + digit_text(value % 10)
    }
}

fn digit(value: u64) -> (text: &'static str)
    requires
        value < 10,
    ensures
        text@ == digit_text(value as nat),
{
    match value {
        0 => "0",
        1 => "1",
        2 => "2",
        3 => "3",
        4 => "4",
        5 => "5",
        6 => "6",
        7 => "7",
        8 => "8",
        _ => "9",
    }
}

/// `value` in decimal.
pub fn decimal(value: u64) -> (text: String)
    ensures
        text@ == decimal_text(value as nat),
    decreases value,
{
    if value < 10 {
        digit(value).to_owned()
    } else {
        let mut text = decimal(value / 10);
        text.append(digit(value % 10));
        text
    }
}

/// The text of a number of several digits is that of the number without its last
/// digit, then the digit, and each digit has its own text.
pub proof fn law_decimal_is_written_digit_by_digit(value: nat, digit: nat)
    requires
        digit < 10,
    ensures
        value > 0 ==> decimal_text(value * 10 + digit) == decimal_text(value) + decimal_text(
            digit,
        ),
        decimal_text(0) == "0"@,
        decimal_text(1) == "1"@,
        decimal_text(2) == "2"@,
        decimal_text(3) == "3"@,
        decimal_text(4) == "4"@,
        decimal_text(5) == "5"@,
        decimal_text(6) == "6"@,
        decimal_text(7) == "7"@,
        decimal_text(8) == "8"@,
        decimal_text(9) == "9"@,
{
    if value > 0 {
        let whole = value * 10 + digit;
        assert(whole / 10 == value && whole % 10 == digit);
    }
}

} // verus!
