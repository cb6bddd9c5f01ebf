//! Numbers and answers as text, for messages.

use vstd::prelude::*;

verus! {

/// One decimal digit.
pub open spec fn digit(value: nat) -> char {
    if value == 0 {
        '0'
    } else if value == 1 {
        '1'
    } else if value == 2 {
        '2'
    } else if value == 3 {
        '3'
    } else if value == 4 {
        '4'
    } else if value == 5 {
        '5'
    } else if value == 6 {
        '6'
    } else if value == 7 {
        '7'
    } else if value == 8 {
        '8'
    } else {
        '9'
    }
}

/// A number in decimal digits, without leading zeros.
pub open spec fn decimal(value: nat) -> Seq<char>
    decreases value,
{
    if value < 10 {
        seq![digit(value)]
    } else {
        decimal(value / 10).push(digit(value % 10))
    }
}

fn write_digit(value: u64) -> (character: char)
    requires
        value < 10,
    ensures
        character == digit(value as nat),
{
    if value == 0 {
        '0'
    } else if value == 1 {
        '1'
    } else if value == 2 {
        '2'
    } else if value == 3 {
        '3'
    } else if value == 4 {
        '4'
    } else if value == 5 {
        '5'
    } else if value == 6 {
        '6'
    } else if value == 7 {
        '7'
    } else if value == 8 {
        '8'
    } else {
        '9'
    }
}

/// Appends a number in decimal digits.
pub(crate) fn push_decimal(out: &mut String, value: u64)
    ensures
        final(out)@ == old(out)@ + decimal(value as nat),
    decreases value,
{
    let ghost before = out@;
    if value >= 10 {
        push_decimal(out, value / 10);
    }
    let last: char = write_digit(value % 10);
    out.push(last);
    assert(out@ =~= before + decimal(value as nat));
}

/// An answer as text.
pub open spec fn answer_text(answer: bool) -> Seq<char> {
    if answer {
        "true"@
    } else {
        "false"@
    }
}

pub(crate) fn push_answer(out: &mut String, answer: bool)
    ensures
        final(out)@ == old(out)@ + answer_text(answer),
{
    if answer {
        out.append("true");
    } else {
        out.append("false");
    }
}

/// A number that may be missing, as text.
pub open spec fn optional_text(value: Option<u32>) -> Seq<char> {
    match value {
        Some(number) => "Some("@ + decimal(number as nat) + ")"@,
        None => "None"@,
    }
}

pub(crate) fn push_optional(out: &mut String, value: Option<u32>)
    ensures
        final(out)@ == old(out)@ + optional_text(value),
{
    let ghost before = out@;
    match value {
        Some(number) => {
            out.append("Some(");
            push_decimal(out, number as u64);
            out.append(")");
            assert(out@ =~= before + optional_text(value));
        },
        None => {
            out.append("None");
        },
    }
}

} // verus!
