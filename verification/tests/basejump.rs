use rats::basejump::{
    char_to_digit, check_base, convert_any_base_to_base, convert_any_base_to_base_ten,
    convert_expression, convert_int_to_str_any_base, convert_str_to_int_any_base, digit_to_char,
    is_operator, parse_output_bases, precedence, ExprError, InvalidBases,
};
use rats::basejump::{lines_in_bases, parse_command_line, ExitError};

#[test]
fn characters_are_digits_up_to_base_36() {
    assert_eq!(char_to_digit('0'), Some(0));
    assert_eq!(char_to_digit('9'), Some(9));
    assert_eq!(char_to_digit('a'), Some(10));
    assert_eq!(char_to_digit('z'), Some(35));
    assert_eq!(char_to_digit('A'), Some(10));
    assert_eq!(char_to_digit('Z'), Some(35));
    assert_eq!(char_to_digit('-'), None);
    assert_eq!(char_to_digit(' '), None);
    assert_eq!(char_to_digit('é'), None);
}

#[test]
fn digits_are_written_in_lower_case() {
    assert_eq!(digit_to_char(0), '0');
    assert_eq!(digit_to_char(9), '9');
    assert_eq!(digit_to_char(10), 'a');
    assert_eq!(digit_to_char(15), 'f');
    assert_eq!(digit_to_char(35), 'z');
    for d in 0..36u8 {
        assert_eq!(char_to_digit(digit_to_char(d)), Some(d));
    }
}

#[test]
fn numbers_are_read_in_any_base() {
    assert_eq!(convert_str_to_int_any_base("1010", 2), Ok(10));
    assert_eq!(convert_str_to_int_any_base("FF", 16), Ok(255));
    assert_eq!(convert_str_to_int_any_base("ff", 16), Ok(255));
    assert_eq!(convert_str_to_int_any_base("177", 8), Ok(127));
    assert_eq!(convert_str_to_int_any_base("zzz", 36), Ok(46655));
    assert_eq!(convert_str_to_int_any_base("ABC", 16), Ok(2748));
    assert_eq!(convert_str_to_int_any_base("0042", 10), Ok(42));
    assert_eq!(convert_str_to_int_any_base("", 10), Ok(0));
    assert_eq!(
        convert_str_to_int_any_base("340282366920938463463374607431768211455", 10),
        Ok(u128::MAX)
    );
}

#[test]
fn bad_numbers_are_rejected_at_the_first_fault() {
    assert_eq!(convert_str_to_int_any_base("12+", 10), Err(ExprError::InvalidDigit));
    assert_eq!(convert_str_to_int_any_base("129", 8), Err(ExprError::DigitOutOfRange));
    assert_eq!(convert_str_to_int_any_base("2", 2), Err(ExprError::DigitOutOfRange));
    assert_eq!(convert_str_to_int_any_base("g", 16), Err(ExprError::DigitOutOfRange));
    assert_eq!(
        convert_str_to_int_any_base("340282366920938463463374607431768211456", 10),
        Err(ExprError::Overflow)
    );
    assert_eq!(
        convert_str_to_int_any_base("3402823669209384634633746074317682114550", 10),
        Err(ExprError::Overflow)
    );
    assert_eq!(convert_str_to_int_any_base("9 ", 8), Err(ExprError::DigitOutOfRange));
    assert_eq!(convert_str_to_int_any_base(" 9", 8), Err(ExprError::InvalidDigit));
    assert_eq!(convert_str_to_int_any_base("0", 0), Err(ExprError::DigitOutOfRange));
}

#[test]
fn numbers_are_written_in_any_base() {
    assert_eq!(convert_int_to_str_any_base(0, 2), "0");
    assert_eq!(convert_int_to_str_any_base(42, 2), "101010");
    assert_eq!(convert_int_to_str_any_base(42, 10), "42");
    assert_eq!(convert_int_to_str_any_base(42, 16), "2a");
    assert_eq!(convert_int_to_str_any_base(255, 16), "ff");
    assert_eq!(convert_int_to_str_any_base(35, 36), "z");
    assert_eq!(convert_int_to_str_any_base(36, 36), "10");
    assert_eq!(convert_int_to_str_any_base(20, 3), "202");
    assert_eq!(convert_int_to_str_any_base(20, 7), "26");
    assert_eq!(
        convert_int_to_str_any_base(u128::MAX, 10),
        "340282366920938463463374607431768211455"
    );
    assert_eq!(convert_int_to_str_any_base(u128::MAX, 2), "1".repeat(128));
}

#[test]
fn written_numbers_read_back() {
    for base in 2..=36u32 {
        for value in [0u128, 1, 35, 36, 1295, 123456789, u128::MAX] {
            let text = convert_int_to_str_any_base(value, base);
            assert_eq!(convert_str_to_int_any_base(&text, base), Ok(value));
        }
    }
}

#[test]
fn numbers_are_converted_between_bases() {
    assert_eq!(convert_any_base_to_base("ff", 16, 2), Ok(String::from("11111111")));
    assert_eq!(convert_any_base_to_base("50", 8, 10), Ok(String::from("40")));
    assert_eq!(convert_any_base_to_base("8", 8, 10), Err(ExprError::DigitOutOfRange));
    assert_eq!(convert_any_base_to_base_ten("1010", 2), Ok(String::from("10")));
    assert_eq!(convert_any_base_to_base_ten("x", 10), Err(ExprError::DigitOutOfRange));
    assert_eq!(convert_any_base_to_base_ten("#", 10), Err(ExprError::InvalidDigit));
}

#[test]
fn bases_are_from_2_to_36() {
    assert_eq!(check_base("2"), Some(2));
    assert_eq!(check_base("10"), Some(10));
    assert_eq!(check_base("36"), Some(36));
    assert_eq!(check_base("016"), Some(16));
    assert_eq!(check_base("1"), None);
    assert_eq!(check_base("0"), None);
    assert_eq!(check_base("37"), None);
    assert_eq!(check_base(""), None);
    assert_eq!(check_base("+5"), None);
    assert_eq!(check_base("-5"), None);
    assert_eq!(check_base("abc"), None);
    assert_eq!(check_base("99999999999999999999"), None);
}

#[test]
fn lists_of_bases_are_read() {
    assert_eq!(parse_output_bases("8"), Ok(vec![8]));
    assert_eq!(parse_output_bases("3,7,10"), Ok(vec![3, 7, 10]));
    assert_eq!(parse_output_bases("2,10,16"), Ok(vec![2, 10, 16]));
    assert_eq!(parse_output_bases("16,2"), Ok(vec![16, 2]));
}

#[test]
fn lists_of_bases_are_checked() {
    assert_eq!(parse_output_bases(""), Err(InvalidBases));
    assert_eq!(parse_output_bases(","), Err(InvalidBases));
    assert_eq!(parse_output_bases("2,"), Err(InvalidBases));
    assert_eq!(parse_output_bases(",2"), Err(InvalidBases));
    assert_eq!(parse_output_bases("2,,3"), Err(InvalidBases));
    assert_eq!(parse_output_bases("2,2"), Err(InvalidBases));
    assert_eq!(parse_output_bases("2,02"), Err(InvalidBases));
    assert_eq!(parse_output_bases("2,37"), Err(InvalidBases));
    assert_eq!(parse_output_bases("abc"), Err(InvalidBases));
    assert_eq!(parse_output_bases("2, 3"), Err(InvalidBases));
}

#[test]
fn operators_and_their_binding() {
    for op in ['+', '-', '*', '/'] {
        assert!(is_operator(op));
    }
    for other in ['^', '%', '(', ' ', '0', 'x'] {
        assert!(!is_operator(other));
        assert_eq!(precedence(other), 0);
    }
    assert_eq!(precedence('+'), 1);
    assert_eq!(precedence('-'), 1);
    assert_eq!(precedence('*'), 2);
    assert_eq!(precedence('/'), 2);
}

#[test]
fn expressions_are_rewritten_in_another_base() {
    assert_eq!(convert_expression("10+5", 10, 10), Ok(String::from("10+5")));
    assert_eq!(convert_expression("10+5", 10, 2), Ok(String::from("1010+101")));
    assert_eq!(convert_expression("ff * 2", 16, 10), Ok(String::from("255*2")));
    assert_eq!(convert_expression(" 7 ", 8, 2), Ok(String::from("111")));
    assert_eq!(convert_expression("", 10, 2), Ok(String::new()));
    assert_eq!(convert_expression("5+", 10, 2), Ok(String::from("101+")));
    assert_eq!(convert_expression("+5", 10, 2), Ok(String::from("+101")));
    assert_eq!(convert_expression("5++3", 10, 10), Ok(String::from("5++3")));
    assert_eq!(convert_expression("1 2+3", 10, 10), Ok(String::from("12+3")));
}

#[test]
fn expressions_with_bad_numbers_are_not_rewritten() {
    assert_eq!(convert_expression("12+9", 8, 10), Err(ExprError::DigitOutOfRange));
    assert_eq!(convert_expression("1(2", 10, 10), Err(ExprError::InvalidDigit));
    assert_eq!(
        convert_expression("340282366920938463463374607431768211456+1", 10, 2),
        Err(ExprError::Overflow)
    );
}

#[test]
fn errors_have_their_texts() {
    assert_eq!(ExprError::InvalidDigit.message(), "invalid digit");
    assert_eq!(ExprError::DigitOutOfRange.message(), "digit out of range");
    assert_eq!(ExprError::Overflow.message(), "overflow");
    assert_eq!(ExprError::InvalidExpression.message(), "invalid expression");
    assert_eq!(ExprError::InvalidCharacter.message(), "invalid character");
    assert_eq!(ExprError::Arithmetic.message(), "overflow or invalid op");
}

fn strings(items: &[&str]) -> Vec<String> {
    items.iter().map(|s| s.to_string()).collect()
}

#[test]
fn converter_arguments_are_read() {
    let parsed = parse_command_line(&strings(&["uqbasejump"])).unwrap();
    assert_eq!(parsed.input_base, 10);
    assert_eq!(parsed.output_bases, vec![2, 10, 16]);
    assert_eq!(parsed.input_file_name, None);

    let parsed = parse_command_line(&strings(&[
        "uqbasejump",
        "--obases",
        "3,7,10",
        "--inputfile",
        "in.txt",
        "--inbase",
        "8",
    ]))
    .unwrap();
    assert_eq!(parsed.input_base, 8);
    assert_eq!(parsed.output_bases, vec![3, 7, 10]);
    assert_eq!(parsed.input_file_name, Some(String::from("in.txt")));
}

#[test]
fn wrong_converter_arguments_are_a_usage_error() {
    for bad in [
        vec![],
        vec!["uqbasejump", "--inbase"],
        vec!["uqbasejump", "--inbase", "1"],
        vec!["uqbasejump", "--inbase", "37"],
        vec!["uqbasejump", "--inbase", "abc"],
        vec!["uqbasejump", "--inbase", "2", "--inbase", "3"],
        vec!["uqbasejump", "--obases", "2,2"],
        vec!["uqbasejump", "--obases", ""],
        vec!["uqbasejump", "--obases", "2", "--obases", "3"],
        vec!["uqbasejump", "--inputfile", ""],
        vec!["uqbasejump", "--inputfile", "a", "--inputfile", "b"],
        vec!["uqbasejump", "inbase", "2"],
        vec!["uqbasejump", "--", "2"],
        vec!["uqbasejump", "-inbase", "2"],
        vec!["uqbasejump", "--other", "2"],
        vec!["uqbasejump", "--inbase", "2", "extra"],
    ] {
        let error = parse_command_line(&strings(&bad)).unwrap_err();
        assert!(matches!(error, ExitError::Usage));
        assert_eq!(error.status(), 7);
        assert_eq!(error.message(), "usage");
    }
    let file = ExitError::File(String::from("missing.txt"));
    assert_eq!(file.status(), 16);
    assert_eq!(file.message(), "file");
}

#[test]
fn results_are_listed_base_by_base() {
    assert_eq!(
        lines_in_bases(42, &vec![2, 10, 16]),
        vec!["Base 2: 101010", "Base 10: 42", "Base 16: 2a"]
    );
    assert_eq!(lines_in_bases(0, &vec![36]), vec!["Base 36: 0"]);
    assert!(lines_in_bases(5, &Vec::new()).is_empty());
}
