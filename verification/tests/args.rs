use cantstopcalc::args::{parse_number, process_args, ArgError};
use cantstopcalc::calc::path_calc;
use std::collections::HashSet;

fn argv(args: &[&str]) -> Vec<String> {
    let mut list = vec![String::from("cantstopcalc")];
    for arg in args {
        list.push(String::from(*arg));
    }
    list
}

fn set(columns: &[u8]) -> HashSet<u8> {
    columns.iter().cloned().collect()
}

#[test]
fn no_arguments_give_empty_sets() {
    let params = process_args(&argv(&[])).unwrap();
    assert!(params.blocked.is_empty());
    assert!(params.chosen.is_empty());
}

#[test]
fn empty_list_gives_empty_sets() {
    let params = process_args(&Vec::new()).unwrap();
    assert!(params.blocked.is_empty());
    assert!(params.chosen.is_empty());
}

#[test]
fn program_name_is_skipped() {
    let args = vec![String::from("13"), String::from("-b"), String::from("7")];
    let params = process_args(&args).unwrap();
    assert_eq!(params.blocked, set(&[7]));
    let args = vec![String::from("--strange")];
    assert!(process_args(&args).is_ok());
}

#[test]
fn blocked_and_chosen_columns() {
    let params = process_args(&argv(&["-b", "2", "12", "-c", "7", "8"])).unwrap();
    assert_eq!(params.blocked, set(&[2, 12]));
    assert_eq!(params.chosen, set(&[7, 8]));
}

#[test]
fn options_may_come_again() {
    let params = process_args(&argv(&["-c", "7", "-b", "2", "-c", "8", "-b", "3", "-b"])).unwrap();
    assert_eq!(params.blocked, set(&[2, 3]));
    assert_eq!(params.chosen, set(&[7, 8]));
}

#[test]
fn repeated_columns_count_once() {
    let params = process_args(&argv(&["-c", "7", "7", "8", "7", "9", "8"])).unwrap();
    assert_eq!(params.chosen, set(&[7, 8, 9]));
}

#[test]
fn numbers_with_sign_or_leading_zeros() {
    let params = process_args(&argv(&["-b", "+5", "007", "+012"])).unwrap();
    assert_eq!(params.blocked, set(&[5, 7, 12]));
}

#[test]
fn all_columns_may_be_blocked() {
    let params = process_args(&argv(&[
        "-b", "2", "3", "4", "5", "6", "7", "8", "9", "10", "11", "12",
    ]))
    .unwrap();
    assert_eq!(params.blocked.len(), 11);
    assert_eq!(path_calc(params), 1296);
}

#[test]
fn arguments_to_count() {
    let params = process_args(&argv(&["-c", "2", "3", "4"])).unwrap();
    assert_eq!(path_calc(params), 620);
}

#[test]
fn unknown_option_is_rejected() {
    assert_eq!(
        process_args(&argv(&["-b", "2", "-x", "3"])),
        Err(ArgError::UnrecognizedOption(String::from("-x")))
    );
    assert_eq!(
        process_args(&argv(&["-"])),
        Err(ArgError::UnrecognizedOption(String::from("-")))
    );
    assert_eq!(
        process_args(&argv(&["-bc"])),
        Err(ArgError::UnrecognizedOption(String::from("-bc")))
    );
    assert_eq!(
        process_args(&argv(&["-B"])),
        Err(ArgError::UnrecognizedOption(String::from("-B")))
    );
    assert_eq!(
        process_args(&argv(&["-c", "-5"])),
        Err(ArgError::UnrecognizedOption(String::from("-5")))
    );
    assert_eq!(
        process_args(&argv(&["-é"])),
        Err(ArgError::UnrecognizedOption(String::from("-é")))
    );
}

#[test]
fn column_before_any_option_is_rejected() {
    assert_eq!(
        process_args(&argv(&["7", "-b", "2"])),
        Err(ArgError::MissingOption(String::from("7")))
    );
    assert_eq!(
        process_args(&argv(&["seven"])),
        Err(ArgError::MissingOption(String::from("seven")))
    );
    assert_eq!(
        process_args(&argv(&[""])),
        Err(ArgError::MissingOption(String::new()))
    );
}

#[test]
fn unparsable_column_is_rejected() {
    assert_eq!(
        process_args(&argv(&["-b", "seven"])),
        Err(ArgError::UnparsablePath(String::from("seven")))
    );
    assert_eq!(
        process_args(&argv(&["-b", "7", "", "8"])),
        Err(ArgError::UnparsablePath(String::new()))
    );
    assert_eq!(
        process_args(&argv(&["-c", "256"])),
        Err(ArgError::UnparsablePath(String::from("256")))
    );
    assert_eq!(
        process_args(&argv(&["-c", "7.0"])),
        Err(ArgError::UnparsablePath(String::from("7.0")))
    );
    assert_eq!(
        process_args(&argv(&["-c", " 7"])),
        Err(ArgError::UnparsablePath(String::from(" 7")))
    );
}

#[test]
fn column_off_the_board_is_rejected() {
    assert_eq!(
        process_args(&argv(&["-b", "1"])),
        Err(ArgError::PathOutOfRange(1))
    );
    assert_eq!(
        process_args(&argv(&["-b", "0"])),
        Err(ArgError::PathOutOfRange(0))
    );
    assert_eq!(
        process_args(&argv(&["-c", "12", "13"])),
        Err(ArgError::PathOutOfRange(13))
    );
    assert_eq!(
        process_args(&argv(&["-c", "255"])),
        Err(ArgError::PathOutOfRange(255))
    );
}

#[test]
fn fourth_chosen_column_is_rejected() {
    assert_eq!(
        process_args(&argv(&["-c", "2", "3", "4", "5"])),
        Err(ArgError::TooManyChosen(4))
    );
    assert_eq!(
        process_args(&argv(&["-c", "2", "3", "-b", "9", "-c", "4", "5", "6"])),
        Err(ArgError::TooManyChosen(5))
    );
    assert!(process_args(&argv(&["-c", "2", "3", "4", "4", "2"])).is_ok());
}

#[test]
fn first_fault_is_reported() {
    assert_eq!(
        process_args(&argv(&["-c", "2", "3", "4", "5", "13"])),
        Err(ArgError::PathOutOfRange(13))
    );
    assert_eq!(
        process_args(&argv(&["-b", "x", "-x", "99"])),
        Err(ArgError::UnparsablePath(String::from("x")))
    );
    assert_eq!(
        process_args(&argv(&["9", "-x"])),
        Err(ArgError::MissingOption(String::from("9")))
    );
}

#[test]
fn numbers_are_read_as_the_standard_library_reads_them() {
    let mut texts: Vec<String> = Vec::new();
    for n in 0..1200u32 {
        texts.push(n.to_string());
        texts.push(format!("+{}", n));
        texts.push(format!("-{}", n));
        texts.push(format!("0{}", n));
        texts.push(format!("{}0", n));
        texts.push(format!("{} ", n));
        texts.push(format!("{}a", n));
    }
    for text in [
        "", "+", "-", "++1", "+-1", "1+", "0", "00", "000000000000000000000000000012", "255",
        "256", "0255", "0256", "99999999999999999999999999", "١٢", "１２", "1_0", "0x10", "1e1",
        "é", "7é", "\u{0}", "7\u{0}", "/", ":", "2/", "2:",
    ] {
        texts.push(String::from(text));
    }
    for text in texts {
        assert_eq!(
            parse_number(&text),
            text.parse::<u8>().ok(),
            "on {:?}",
            text
        );
    }
}

#[test]
fn number_values() {
    assert_eq!(parse_number("7"), Some(7));
    assert_eq!(parse_number("+12"), Some(12));
    assert_eq!(parse_number("250"), Some(250));
    assert_eq!(parse_number("255"), Some(255));
    assert_eq!(parse_number("256"), None);
    assert_eq!(parse_number("260"), None);
    assert_eq!(parse_number("2550"), None);
    assert_eq!(parse_number(""), None);
    assert_eq!(parse_number("+"), None);
}

#[test]
fn messages() {
    assert_eq!(
        ArgError::UnrecognizedOption(String::from("-x")).message(),
        "unrecognized option: -x"
    );
    assert_eq!(
        ArgError::UnparsablePath(String::from("seven")).message(),
        "failed to parse path number: seven"
    );
    assert_eq!(
        ArgError::PathOutOfRange(13).message(),
        "path number outside range: 13"
    );
    assert_eq!(
        ArgError::PathOutOfRange(0).message(),
        "path number outside range: 0"
    );
    assert_eq!(
        ArgError::PathOutOfRange(255).message(),
        "path number outside range: 255"
    );
    assert_eq!(
        ArgError::MissingOption(String::from("7")).message(),
        "specify an option first instead of 7"
    );
    assert_eq!(
        ArgError::TooManyChosen(4).message(),
        "too much chosen paths: 4"
    );
    assert_eq!(
        ArgError::TooManyChosen(11).message(),
        "too much chosen paths: 11"
    );
}

#[test]
fn numbers_in_messages_are_written_in_decimal() {
    for path in 0..=255u8 {
        assert_eq!(
            ArgError::PathOutOfRange(path).message(),
            format!("path number outside range: {}", path)
        );
    }
    for count in [0usize, 9, 10, 99, 100, 1234567890, usize::MAX] {
        assert_eq!(
            ArgError::TooManyChosen(count).message(),
            format!("too much chosen paths: {}", count)
        );
    }
}

#[test]
fn messages_of_rejected_arguments() {
    let error = process_args(&argv(&["-c", "2", "3", "4", "5"])).unwrap_err();
    assert_eq!(error.message(), "too much chosen paths: 4");
    let error = process_args(&argv(&["-b", "+13"])).unwrap_err();
    assert_eq!(error.message(), "path number outside range: 13");
    let error = process_args(&argv(&["--help"])).unwrap_err();
    assert_eq!(error.message(), "unrecognized option: --help");
}
