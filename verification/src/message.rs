//! The text that reports a rejected list of arguments.

use crate::args::{ArgError, ArgFault};
use vstd::prelude::*;

verus! {

/// The character that writes the decimal digit `d`.
pub open spec fn digit_char(d: int) -> char {
    if d == 0 {
        '0'
    } else if d == 1 {
        '1'
    } else if d == 2 {
        '2'
    } else if d == 3 {
        '3'
    } else if d == 4 {
        '4'
    } else if d == 5 {
        '5'
    } else if d == 6 {
        '6'
    } else if d == 7 {
        '7'
    } else if d == 8 {
        '8'
    } else {
        '9'
    }
}

/// `n` written in decimal digits, without leading zeros.
pub open spec fn decimal_text(n: nat) -> Seq<char>
    decreases n,
{
    if n < 10 {
        seq![digit_char(n as int)]
    } else {
        decimal_text(n / 10).push(digit_char((n % 10) as int))
    }
}

/// The characters of "unrecognized option: ".
pub open spec fn unrecognized_option_text() -> Seq<char> {
    "unrecognized option: "@
}

/// The characters of "failed to parse path number: ".
pub open spec fn unparsable_path_text() -> Seq<char> {
    "failed to parse path number: "@
}

/// The characters of "path number outside range: ".
pub open spec fn path_out_of_range_text() -> Seq<char> {
    "path number outside range: "@
}

/// The characters of "specify an option first instead of ".
pub open spec fn missing_option_text() -> Seq<char> {
    "specify an option first instead of "@
}

/// The characters of "too much chosen paths: ".
pub open spec fn too_many_chosen_text() -> Seq<char> {
    "too much chosen paths: "@
}

/// The text that reports `fault`: what went wrong, then the argument or
/// the number that it went wrong with.
pub open spec fn message_text(fault: ArgFault) -> Seq<char> {
    match fault {
        ArgFault::UnrecognizedOption(arg) => unrecognized_option_text() + arg,
        ArgFault::UnparsablePath(arg) => unparsable_path_text() + arg,
        ArgFault::PathOutOfRange(path) => path_out_of_range_text() + decimal_text(path as nat),
        ArgFault::MissingOption(arg) => missing_option_text() + arg,
        ArgFault::TooManyChosen(count) => too_many_chosen_text() + decimal_text(count),
    }
}

/// The decimal digit `d` as a string of one character.
fn digit_str(d: usize) -> (ret: &'static str)
    requires
        d < 10,
    ensures
        ret@ == seq![digit_char(d as int)],
{
    proof {
        reveal_strlit("0");
        reveal_strlit("1");
        reveal_strlit("2");
        reveal_strlit("3");
        reveal_strlit("4");
        reveal_strlit("5");
        reveal_strlit("6");
        reveal_strlit("7");
        reveal_strlit("8");
        reveal_strlit("9");
    }
    let ret = if d == 0 {
        "0"
    } else if d == 1 {
        "1"
    } else if d == 2 {
        "2"
    } else if d == 3 {
        "3"
    } else if d == 4 {
        "4"
    } else if d == 5 {
        "5"
    } else if d == 6 {
        "6"
    } else if d == 7 {
        "7"
    } else if d == 8 {
        "8"
    } else {
        "9"
    };
    assert(ret@ =~= seq![digit_char(d as int)]);
    ret
}

/// Appends `n` in decimal digits to `out`.
fn push_decimal(out: &mut String, n: usize)
    ensures
        final(out)@ == old(out)@ + decimal_text(n as nat),
    decreases n,
{
    if n >= 10 {
        push_decimal(out, n / 10);
    }
    out.append(digit_str(n % 10));
    assert(out@ =~= old(out)@ + decimal_text(n as nat));
}

impl ArgError {
    /// The text that reports this error.
    pub fn message(&self) -> (ret: String)
        ensures
            ret@ == message_text(self@),
    {
        match self {
            ArgError::UnrecognizedOption(arg) => {
                let mut ret = String::from_str("unrecognized option: ");
                ret.append(arg.as_str());
                ret
            },
            ArgError::UnparsablePath(arg) => {
                let mut ret = String::from_str("failed to parse path number: ");
                ret.append(arg.as_str());
                ret
            },
            ArgError::PathOutOfRange(path) => {
                let mut ret = String::from_str("path number outside range: ");
                push_decimal(&mut ret, *path as usize);
                ret
            },
            ArgError::MissingOption(arg) => {
                let mut ret = String::from_str("specify an option first instead of ");
                ret.append(arg.as_str());
                ret
            },
            ArgError::TooManyChosen(count) => {
                let mut ret = String::from_str("too much chosen paths: ");
                push_decimal(&mut ret, *count);
                ret
            },
        }
    }
}

} // verus!
