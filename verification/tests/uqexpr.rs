use rats::uqexpr::{
    has_leading_zero, is_valid_numeric, is_valid_var_name, ExitCodes, ExitError, UQExprError,
};
use rats::uqexpr::{
    check_definition, check_loop, find_char, handle_command_line_arguments, is_taken, trim_part,
};

#[test]
fn test_has_leading_zero() {
    assert!(has_leading_zero("0123"));
    assert!(!has_leading_zero("123"));
    assert!(!has_leading_zero("0"));
    assert!(!has_leading_zero(""));
    assert!(has_leading_zero("000123"));
    assert!(!has_leading_zero("10023"));
}

#[test]
fn test_command_line_parsing_scenarios() {
    assert!(!has_leading_zero("2"));
    assert!(!has_leading_zero("8"));
    assert!(has_leading_zero("02"));

    assert!(has_leading_zero("0123"));
    assert!(!has_leading_zero("1023"));
    assert!(!has_leading_zero("1230"));
}

#[test]
fn test_argument_validation() {
    assert!(has_leading_zero("0123"));
    assert!(!has_leading_zero("123"));
    assert!(!has_leading_zero("0"));

    let valid_range = 2..=8;
    assert!(valid_range.contains(&2));
    assert!(valid_range.contains(&8));
    assert!(!valid_range.contains(&1));
    assert!(!valid_range.contains(&9));
}

#[test]
fn test_error_handling() {
    let usage_error = ExitError::Usage;
    assert_eq!(usage_error.message(), "usage");

    let file_error = ExitError::File;
    assert_eq!(file_error.message(), "file");

    assert_eq!(ExitCodes::Usage.code(), 18);
}

#[test]
fn exit_codes_have_their_numbers() {
    assert_eq!(ExitCodes::Usage.code(), 18);
    assert_eq!(ExitCodes::InvalidFile.code(), 5);
    assert_eq!(ExitCodes::Variable.code(), 14);
    assert_eq!(ExitCodes::Duplicate.code(), 19);
    assert_eq!(ExitError::Variable.status(), ExitCodes::Variable);
    assert_eq!(ExitError::Duplicate.status(), ExitCodes::Duplicate);
    assert_eq!(ExitError::File.status(), ExitCodes::InvalidFile);
    assert_eq!(ExitError::Usage.status(), ExitCodes::Usage);
    assert_eq!(ExitError::Variable.message(), "variable");
    assert_eq!(ExitError::Duplicate.message(), "duplicate variable");
}

#[test]
fn expression_errors_are_worded() {
    assert_eq!(UQExprError::IoError(String::from("gone")).message(), "IO Error: gone");
    assert_eq!(
        UQExprError::ParseIntError(String::from("bad digit")).message(),
        "Parse Int Error: bad digit"
    );
    assert_eq!(
        UQExprError::InvalidExpression(String::from("1+")).message(),
        "Invalid Expression: 1+"
    );
}

#[test]
fn variable_names_are_checked() {
    assert!(is_valid_var_name("x"));
    assert!(is_valid_var_name("total_2"));
    assert!(is_valid_var_name("a2345678901234567890"));
    assert!(!is_valid_var_name("a23456789012345678901"));
    assert!(!is_valid_var_name(""));
    assert!(!is_valid_var_name("2x"));
    assert!(!is_valid_var_name("_x"));
    assert!(!is_valid_var_name("x-y"));
    assert!(!is_valid_var_name("xé"));
}

#[test]
fn numeric_literals_are_checked() {
    assert!(is_valid_numeric("0"));
    assert!(is_valid_numeric("-12.5"));
    assert!(is_valid_numeric(".5"));
    assert!(is_valid_numeric("5."));
    assert!(!is_valid_numeric(""));
    assert!(!is_valid_numeric("-"));
    assert!(!is_valid_numeric("."));
    assert!(!is_valid_numeric("1.2.3"));
    assert!(!is_valid_numeric("+1"));
    assert!(!is_valid_numeric("1e3"));
    assert!(!is_valid_numeric("--1"));
}

fn strings(items: &[&str]) -> Vec<String> {
    items.iter().map(|s| s.to_string()).collect()
}

#[test]
fn evaluator_arguments_are_read() {
    let config = handle_command_line_arguments(&strings(&["uqexpr"])).unwrap();
    assert_eq!(config.significant_figures, 4);
    assert!(config.init_string_vec.is_empty());
    assert!(config.for_loop_vec.is_empty());
    assert!(!config.figure_flag);
    assert!(!config.filename_flag);
    assert_eq!(config.input_filename, "");

    let config = handle_command_line_arguments(&strings(&[
        "uqexpr",
        "--init",
        "x=1",
        "--forloop",
        "i,0,1,5",
        "--significantfigures",
        "6",
        "--init",
        "y=2",
        "input.txt",
    ]))
    .unwrap();
    assert_eq!(config.init_string_vec, vec!["x=1", "y=2"]);
    assert_eq!(config.for_loop_vec, vec!["i,0,1,5"]);
    assert_eq!(config.significant_figures, 6);
    assert!(config.figure_flag);
    assert!(config.filename_flag);
    assert_eq!(config.input_filename, "input.txt");

    let config =
        handle_command_line_arguments(&strings(&["uqexpr", "--init", "--forloop"])).unwrap();
    assert_eq!(config.init_string_vec, vec!["--forloop"]);
    for figures in ["2", "8", "+5"] {
        assert!(handle_command_line_arguments(&strings(&[
            "uqexpr",
            "--significantfigures",
            figures
        ]))
        .is_ok());
    }
}

#[test]
fn wrong_evaluator_arguments_are_a_usage_error() {
    for bad in [
        vec!["uqexpr", ""],
        vec!["uqexpr", "--init"],
        vec!["uqexpr", "--forloop"],
        vec!["uqexpr", "--significantfigures"],
        vec!["uqexpr", "--significantfigures", "1"],
        vec!["uqexpr", "--significantfigures", "9"],
        vec!["uqexpr", "--significantfigures", "04"],
        vec!["uqexpr", "--significantfigures", "four"],
        vec!["uqexpr", "--significantfigures", "4", "--significantfigures", "5"],
        vec!["uqexpr", "file", "--init", "x=1"],
        vec!["uqexpr", "one", "two"],
        vec!["uqexpr", "--unknown"],
        vec!["uqexpr", "--init", "x=1", ""],
    ] {
        assert_eq!(
            handle_command_line_arguments(&strings(&bad)).unwrap_err(),
            ExitError::Usage
        );
    }
}

#[test]
fn definitions_are_checked() {
    let taken = strings(&["x", "total"]);
    let d = check_definition(" y = 2.5 ", &taken).unwrap();
    assert_eq!((d.name.as_str(), d.value.as_str()), ("y", "2.5"));
    let d = check_definition("a=-1", &taken).unwrap();
    assert_eq!((d.name.as_str(), d.value.as_str()), ("a", "-1"));
    assert_eq!(check_definition("y", &taken).unwrap_err(), ExitError::Variable);
    assert_eq!(check_definition("", &taken).unwrap_err(), ExitError::Variable);
    assert_eq!(check_definition("=1", &taken).unwrap_err(), ExitError::Variable);
    assert_eq!(check_definition("2y=1", &taken).unwrap_err(), ExitError::Variable);
    assert_eq!(check_definition("x=1", &taken).unwrap_err(), ExitError::Duplicate);
    assert_eq!(check_definition("x=one", &taken).unwrap_err(), ExitError::Duplicate);
    assert_eq!(check_definition("y=", &taken).unwrap_err(), ExitError::Variable);
    assert_eq!(check_definition("y=one", &taken).unwrap_err(), ExitError::Variable);
    assert_eq!(check_definition("y=1=2", &taken).unwrap_err(), ExitError::Variable);
    assert_eq!(check_definition("y z=1", &taken).unwrap_err(), ExitError::Variable);
}

#[test]
fn loops_are_checked() {
    let taken = strings(&["x"]);
    let l = check_loop("i, 0 ,0.5, 10", &taken).unwrap();
    assert_eq!(
        (l.name.as_str(), l.start.as_str(), l.increment.as_str(), l.end.as_str()),
        ("i", "0", "0.5", "10")
    );
    assert_eq!(check_loop("i,0,1", &taken).unwrap_err(), ExitError::Variable);
    assert_eq!(check_loop("i,0,1,2,3", &taken).unwrap_err(), ExitError::Variable);
    assert_eq!(check_loop("", &taken).unwrap_err(), ExitError::Variable);
    assert_eq!(check_loop(",,,", &taken).unwrap_err(), ExitError::Variable);
    assert_eq!(check_loop("1i,0,1,2", &taken).unwrap_err(), ExitError::Variable);
    assert_eq!(check_loop("x,0,1,2", &taken).unwrap_err(), ExitError::Duplicate);
    assert_eq!(check_loop("x,a,1,2", &taken).unwrap_err(), ExitError::Duplicate);
    assert_eq!(check_loop("i,a,1,2", &taken).unwrap_err(), ExitError::Variable);
    assert_eq!(check_loop("i,0,,2", &taken).unwrap_err(), ExitError::Variable);
    assert_eq!(check_loop("i,0,1,", &taken).unwrap_err(), ExitError::Variable);
}

#[test]
fn parts_are_trimmed() {
    assert_eq!(trim_part("  ab  ", 0, 6), "ab");
    assert_eq!(trim_part("  ab  ", 2, 4), "ab");
    assert_eq!(trim_part("  a b  ", 0, 7), "a b");
    assert_eq!(trim_part("    ", 0, 4), "");
    assert_eq!(trim_part("ab", 1, 1), "");
    assert_eq!(trim_part("\u{2003}é\t", 0, 3), "é");
    assert_eq!(find_char("a=b=c", '=', 0), Some(1));
    assert_eq!(find_char("a=b=c", '=', 2), Some(3));
    assert_eq!(find_char("a=b=c", '=', 4), None);
    assert_eq!(find_char("", '=', 0), None);
    assert!(is_taken(&strings(&["a", "b"]), "b"));
    assert!(!is_taken(&strings(&["a", "b"]), "c"));
}
