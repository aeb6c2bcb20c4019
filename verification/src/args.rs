//! Reading the blocked and the chosen columns from a list of arguments.

use crate::rules::{on_board, CalcParams, Constraint, MAX_CHOSEN, MAX_COLUMN, MIN_COLUMN};
use std::collections::HashSet;
use vstd::prelude::*;
use vstd::std_specs::hash::group_hash_axioms;
use vstd::string::is_ascii_spec_bytes;
use vstd::utf8::is_ascii_chars;

verus! {

/// Whether `c` is one of the ten decimal digits.
pub open spec fn is_digit(c: char) -> bool {
    '0' <= c <= '9'
}

/// The value of the decimal digit `c`.
pub open spec fn digit_value(c: char) -> int {
    c as int - '0' as int
}

/// Whether `text` is made of decimal digits alone.
pub open spec fn all_digits(text: Seq<char>) -> bool {
    forall|i: int| 0 <= i < text.len() ==> is_digit(#[trigger] text[i])
}

/// The number that the decimal digits of `digits` write, the first digit
/// counting most.
pub open spec fn decimal_value(digits: Seq<char>) -> int
    decreases digits.len(),
{
    if digits.len() == 0 {
        0
    } else {
        10 * decimal_value(digits.drop_last()) + digit_value(digits.last())
    }
}

/// `text` without a plus sign in front.
pub open spec fn unsigned_part(text: Seq<char>) -> Seq<char> {
    if text.len() > 0 && text[0] == '+' {
        text.skip(1)
    } else {
        text
    }
}

/// The number that `text` writes, if it is a decimal number of at most 255:
/// one digit or more, after a plus sign or none, and nothing else.
pub open spec fn parse_u8(text: Seq<char>) -> Option<u8> {
    let digits = unsigned_part(text);
    if digits.len() > 0 && all_digits(digits) && decimal_value(digits) <= u8::MAX {
        Some(decimal_value(digits) as u8)
    } else {
        None
    }
}

/// Decimal digits write a number that is not negative.
proof fn lemma_decimal_value_bound(digits: Seq<char>)
    requires
        all_digits(digits),
    ensures
        0 <= decimal_value(digits),
    decreases digits.len(),
{
    if digits.len() > 0 {
        lemma_decimal_value_bound(digits.drop_last());
    }
}

/// The first `n` digits never write more than all of them do.
proof fn lemma_decimal_value_prefix(digits: Seq<char>, n: int)
    requires
        all_digits(digits),
        0 <= n <= digits.len(),
    ensures
        decimal_value(digits.take(n)) <= decimal_value(digits),
    decreases digits.len() - n,
{
    if n == digits.len() {
        assert(digits.take(n) =~= digits);
    } else {
        lemma_decimal_value_prefix(digits, n + 1);
        assert(digits.take(n + 1).drop_last() =~= digits.take(n));
        lemma_decimal_value_bound(digits.take(n));
    }
}

/// Reads a decimal number of at most 255 from `text`.
pub fn parse_number(text: &str) -> (ret: Option<u8>)
    ensures
        ret == parse_u8(text@),
{
    broadcast use is_ascii_spec_bytes;

    if !text.is_ascii() {
        proof {
            let k = choose|k: int|
                0 <= k < text@.len() && !('\0' <= #[trigger] text@[k] <= '\u{7f}');
            let digits = unsigned_part(text@);
            if text@[0] == '+' {
                assert(!is_digit(digits[k - 1]));
            } else {
                assert(!is_digit(digits[k]));
            }
        }
        return None;
    }
    let bytes = text.as_bytes();
    let len = bytes.len();
    let start: usize = if len > 0 && bytes[0] == 43 {
        1
    } else {
        0
    };
    if start == len {
        return None;
    }
    let ghost digits = unsigned_part(text@);
    let mut value: u8 = 0;
    let mut i: usize = start;
    while i < len
        invariant
            start <= i <= len,
            len == text@.len(),
            digits == unsigned_part(text@),
            digits == text@.skip(start as int),
            bytes@ == Seq::new(text@.len(), |k: int| text@[k] as u8),
            is_ascii_chars(text@),
            all_digits(digits.take(i - start)),
            value == decimal_value(digits.take(i - start)),
        decreases len - i,
    {
        let byte = bytes[i];
        if byte < 48 || byte > 57 {
            assert(!is_digit(digits[i - start]));
            return None;
        }
        let digit = byte - 48;
        proof {
            assert(digits.take(i - start + 1).drop_last() =~= digits.take(i - start));
            assert(digit == digit_value(digits[i - start]));
            if all_digits(digits) {
                lemma_decimal_value_prefix(digits, i - start + 1);
            }
        }
        if value > 25 || (value == 25 && digit > 5) {
            return None;
        }
        value = value * 10 + digit;
        i += 1;
    }
    assert(digits.take(i - start) =~= digits);
    Some(value)
}

/// Which of the two sets the columns that follow belong to.
#[derive(Clone, Copy, Debug, PartialEq, Eq)]
pub enum ArgMode {
    /// After `-b`: columns that are blocked.
    Blocked,
    /// After `-c`: columns that the player has chosen.
    Chosen,
}

/// Why a list of arguments was rejected.
#[derive(Debug, PartialEq, Eq)]
pub enum ArgError {
    /// An argument begins with a dash and is neither `-b` nor `-c`.
    UnrecognizedOption(String),
    /// An argument that should be a column is no number of at most 255.
    UnparsablePath(String),
    /// A number that is not a column of the board.
    PathOutOfRange(u8),
    /// A column stands before the first option.
    MissingOption(String),
    /// More columns are chosen than a turn allows; holds how many.
    TooManyChosen(usize),
}

/// An [`ArgError`] with its text as a sequence of characters.
pub enum ArgFault {
    UnrecognizedOption(Seq<char>),
    UnparsablePath(Seq<char>),
    PathOutOfRange(u8),
    MissingOption(Seq<char>),
    TooManyChosen(nat),
}

impl View for ArgError {
    type V = ArgFault;

    open spec fn view(&self) -> ArgFault {
        match self {
            ArgError::UnrecognizedOption(arg) => ArgFault::UnrecognizedOption(arg@),
            ArgError::UnparsablePath(arg) => ArgFault::UnparsablePath(arg@),
            ArgError::PathOutOfRange(path) => ArgFault::PathOutOfRange(*path),
            ArgError::MissingOption(arg) => ArgFault::MissingOption(arg@),
            ArgError::TooManyChosen(count) => ArgFault::TooManyChosen(*count as nat),
        }
    }
}

/// Whether `arg` begins with a dash, and so stands for an option.
pub open spec fn is_option(arg: Seq<char>) -> bool {
    arg.len() > 0 && arg[0] == '-'
}

/// The mode that the option `arg` switches to, if it is `-b` or `-c`.
pub open spec fn option_mode(arg: Seq<char>) -> Option<ArgMode> {
    if arg == seq!['-', 'b'] {
        Some(ArgMode::Blocked)
    } else if arg == seq!['-', 'c'] {
        Some(ArgMode::Chosen)
    } else {
        None
    }
}

/// The mode in force at position `i`: that of the nearest option before
/// it, the program's name at position 0 left aside.
pub open spec fn mode_at(args: Seq<String>, i: int) -> Option<ArgMode>
    decreases i,
{
    if i <= 1 {
        None
    } else if is_option(args[i - 1]@) {
        option_mode(args[i - 1]@)
    } else {
        mode_at(args, i - 1)
    }
}

/// What is wrong with the argument at position `i`, if anything: an
/// unknown option, a column before any option, no number, or a number off
/// the board.
pub open spec fn fault_at(args: Seq<String>, i: int) -> Option<ArgFault> {
    let arg = args[i]@;
    if is_option(arg) {
        if option_mode(arg) is None {
            Some(ArgFault::UnrecognizedOption(arg))
        } else {
            None
        }
    } else if mode_at(args, i) is None {
        Some(ArgFault::MissingOption(arg))
    } else {
        match parse_u8(arg) {
            None => Some(ArgFault::UnparsablePath(arg)),
            Some(path) => if path < MIN_COLUMN || path > MAX_COLUMN {
                Some(ArgFault::PathOutOfRange(path))
            } else {
                None
            },
        }
    }
}

/// Whether the arguments at positions 1 to `n - 1` are all in order.
pub open spec fn faultless(args: Seq<String>, n: int) -> bool {
    forall|i: int| 1 <= i < n ==> fault_at(args, i) is None
}

/// The columns that the arguments at positions 1 to `n - 1` give under
/// `mode`.
pub open spec fn columns_given(args: Seq<String>, mode: ArgMode, n: int) -> Set<u8> {
    Set::new(
        |column: u8|
            exists|i: int|
                1 <= i < n && !is_option(#[trigger] args[i]@) && mode_at(args, i) == Some(mode)
                    && parse_u8(args[i]@) == Some(column),
    )
}

/// The blocked and the chosen columns that the arguments give.
pub open spec fn constraint_given(args: Seq<String>) -> Constraint {
    Constraint {
        blocked: columns_given(args, ArgMode::Blocked, args.len() as int),
        chosen: columns_given(args, ArgMode::Chosen, args.len() as int),
    }
}

/// Whether the arguments are accepted: each is in order, and no more
/// columns are chosen than a turn allows.
pub open spec fn accepted(args: Seq<String>) -> bool {
    &&& faultless(args, args.len() as int)
    &&& constraint_given(args).chosen.len() <= MAX_CHOSEN
}

/// Whether the arguments are rejected for `fault`: it is what is wrong
/// with the first argument that is not in order; or each is in order, and
/// it says how many columns are chosen, more than a turn allows.
pub open spec fn rejected_for(args: Seq<String>, fault: ArgFault) -> bool {
    ||| exists|i: int|
        1 <= i < args.len() && faultless(args, i) && #[trigger] fault_at(args, i) == Some(fault)
    ||| {
        &&& faultless(args, args.len() as int)
        &&& constraint_given(args).chosen.len() > MAX_CHOSEN
        &&& fault == ArgFault::TooManyChosen(constraint_given(args).chosen.len())
    }
}

/// Whether `text` begins with a dash.
fn starts_option(text: &str) -> (ret: bool)
    ensures
        ret == is_option(text@),
{
    !text.is_empty() && text.get_char(0) == '-'
}

/// The mode that the option `text` switches to, if it is `-b` or `-c`.
fn read_option(text: &str) -> (ret: Option<ArgMode>)
    requires
        is_option(text@),
    ensures
        ret == option_mode(text@),
{
    if text.unicode_len() != 2 {
        return None;
    }
    let letter = text.get_char(1);
    if letter == 'b' {
        assert(text@ =~= seq!['-', 'b']);
        Some(ArgMode::Blocked)
    } else if letter == 'c' {
        assert(text@ =~= seq!['-', 'c']);
        Some(ArgMode::Chosen)
    } else {
        None
    }
}

/// Reads the blocked and the chosen columns from `args`, the arguments of
/// a command line. The first of them, the program's name, is skipped.
///
/// `-b` and `-c` say where the columns that follow belong: to the blocked
/// or to the chosen ones. Every other argument is a column of the board,
/// 2 to 12. The first argument that is not in order is reported, and then
/// a fourth chosen column.
pub fn process_args(args: &Vec<String>) -> (ret: Result<CalcParams, ArgError>)
    ensures
        ret is Ok <==> accepted(args@),
        ret matches Ok(params) ==> params@ == constraint_given(args@) && params@.valid(),
        ret matches Err(error) ==> rejected_for(args@, error@),
{
    broadcast use group_hash_axioms;

    let mut mode: Option<ArgMode> = None;
    let mut ret = CalcParams { blocked: HashSet::new(), chosen: HashSet::new() };
    let mut i: usize = 1;
    assert(ret.blocked@ =~= columns_given(args@, ArgMode::Blocked, 1));
    assert(ret.chosen@ =~= columns_given(args@, ArgMode::Chosen, 1));
    // process arguments in their order
    while i < args.len()
        invariant
            i == 1 || 1 < i <= args.len(),
            mode == mode_at(args@, i as int),
            faultless(args@, i as int),
            ret.blocked@ == columns_given(args@, ArgMode::Blocked, i as int),
            ret.chosen@ == columns_given(args@, ArgMode::Chosen, i as int),
            on_board(ret.blocked@),
            on_board(ret.chosen@),
        decreases args.len() - i,
    {
        let arg = &args[i];
        let text = arg.as_str();
        proof {
            lemma_columns_given_step(args@, ArgMode::Blocked, i as int);
            lemma_columns_given_step(args@, ArgMode::Chosen, i as int);
        }
        // check for mode change
        if starts_option(text) {
            match read_option(text) {
                Some(next) => {
                    mode = Some(next);
                },
                None => {
                    let error = ArgError::UnrecognizedOption(arg.clone());
                    proof {
                        lemma_first_fault(args@, i as int, error@);
                    }
                    return Err(error);
                },
            }
        } else {
            match mode {
                Some(current) => {
                    let path = match parse_number(text) {
                        Some(number) => number,
                        None => {
                            let error = ArgError::UnparsablePath(arg.clone());
                            proof {
                                lemma_first_fault(args@, i as int, error@);
                            }
                            return Err(error);
                        },
                    };
                    // check if path is in range
                    if path < MIN_COLUMN || path > MAX_COLUMN {
                        let error = ArgError::PathOutOfRange(path);
                        proof {
                            lemma_first_fault(args@, i as int, error@);
                        }
                        return Err(error);
                    }
                    match current {
                        ArgMode::Blocked => {
                            ret.blocked.insert(path);
                        },
                        ArgMode::Chosen => {
                            ret.chosen.insert(path);
                        },
                    }
                },
                None => {
                    let error = ArgError::MissingOption(arg.clone());
                    proof {
                        lemma_first_fault(args@, i as int, error@);
                    }
                    return Err(error);
                },
            }
        }
        assert(fault_at(args@, i as int) is None);
        i += 1;
    }
    proof {
        let n = args.len() as int;
        assert(columns_given(args@, ArgMode::Blocked, n) =~= columns_given(
            args@,
            ArgMode::Blocked,
            i as int,
        ));
        assert(columns_given(args@, ArgMode::Chosen, n) =~= columns_given(
            args@,
            ArgMode::Chosen,
            i as int,
        ));
    }
    if ret.chosen.len() > MAX_CHOSEN {
        return Err(ArgError::TooManyChosen(ret.chosen.len()));
    }
    Ok(ret)
}

/// Arguments with a first fault are not accepted, and are rejected for it.
proof fn lemma_first_fault(args: Seq<String>, i: int, fault: ArgFault)
    requires
        1 <= i < args.len(),
        faultless(args, i),
        fault_at(args, i) == Some(fault),
    ensures
        !accepted(args),
        rejected_for(args, fault),
{
}

/// The columns given by one argument more: the column that the argument
/// at position `n` writes, where it is one under `mode`, joins those given
/// before it.
proof fn lemma_columns_given_step(args: Seq<String>, mode: ArgMode, n: int)
    requires
        1 <= n < args.len(),
    ensures
        columns_given(args, mode, n + 1) == if !is_option(args[n]@) && mode_at(args, n) == Some(
            mode,
        ) && parse_u8(args[n]@) is Some {
            columns_given(args, mode, n).insert(parse_u8(args[n]@)->0)
        } else {
            columns_given(args, mode, n)
        },
{
    let before = columns_given(args, mode, n);
    let after = columns_given(args, mode, n + 1);
    let adds = !is_option(args[n]@) && mode_at(args, n) == Some(mode) && parse_u8(args[n]@) is Some;
    let expected = if adds {
        before.insert(parse_u8(args[n]@)->0)
    } else {
        before
    };
    assert forall|column: u8| after.contains(column) implies expected.contains(column) by {
        let i = choose|i: int|
            1 <= i < n + 1 && !is_option(#[trigger] args[i]@) && mode_at(args, i) == Some(mode)
                && parse_u8(args[i]@) == Some(column);
        if i < n {
            assert(before.contains(column));
        }
    }
    assert forall|column: u8| expected.contains(column) implies after.contains(column) by {
        if before.contains(column) {
            let i = choose|i: int|
                1 <= i < n && !is_option(#[trigger] args[i]@) && mode_at(args, i) == Some(mode)
                    && parse_u8(args[i]@) == Some(column);
            assert(1 <= i < n + 1);
        } else {
            assert(!is_option(args[n]@));
        }
    }
    assert(after =~= expected);
}

} // verus!
