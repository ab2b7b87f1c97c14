use rats::entropy::{
    check_password_is_valid, get_letter_count, leet_transform, symbol_count, Config,
    UQEntropyError,
};
use rats::unscramble::UQUnscrambleError;
use rats::entropy::{parse_arguments, process_line, LineOutcome};

#[test]
fn test_check_password_is_valid() {
    assert!(!check_password_is_valid(""));

    assert!(check_password_is_valid("password"));
    assert!(check_password_is_valid("Password123!"));

    assert!(check_password_is_valid("my password"));

    assert!(check_password_is_valid("password\n"));

    assert!(check_password_is_valid("password\t"));

    assert!(!check_password_is_valid("password\x00"));

    assert!(!check_password_is_valid("密码"));
    assert!(!check_password_is_valid("password@测试"));
}

#[test]
fn test_get_letter_count() {
    assert_eq!(get_letter_count(""), 0);
    assert_eq!(get_letter_count("12345"), 0);
    assert_eq!(get_letter_count("password"), 8);
    assert_eq!(get_letter_count("Password123!"), 8);
    assert_eq!(get_letter_count("a1b2c3d4"), 4);
}

#[test]
fn alphabet_grows_with_the_kinds_of_characters() {
    assert_eq!(symbol_count(""), 0);
    assert_eq!(symbol_count("password"), 26);
    assert_eq!(symbol_count("PASSWORD"), 26);
    assert_eq!(symbol_count("Password"), 52);
    assert_eq!(symbol_count("Password123"), 62);
    assert_eq!(symbol_count("Password!"), 84);
    assert_eq!(symbol_count("Password123!"), 94);
    assert_eq!(symbol_count("123"), 10);
    assert_eq!(symbol_count("é"), 32);
}

#[test]
fn leet_replaces_letters_with_stand_ins() {
    assert_eq!(leet_transform("password"), "p455w0rd");
    assert_eq!(leet_transform("BIGGEST"), "8199357");
    assert_eq!(leet_transform("xyz-12"), "xyz-12");
    assert_eq!(leet_transform(""), "");
    assert_eq!(leet_transform("été"), "é7é");
}

#[test]
fn config_starts_with_everything_off() {
    let config = Config::new();
    assert!(!config.leet);
    assert!(!config.case_sensitive);
    assert!(!config.digit_append);
    assert!(!config.double_check);
    assert_eq!(config.num_digits, 0);
    assert_eq!(Config::default(), config);
}

#[test]
fn entropy_errors_are_named() {
    assert_eq!(UQEntropyError::Usage.message(), "usage");
    assert_eq!(UQEntropyError::File(String::from("list.txt")).message(), "file");
}

#[test]
fn unscramble_errors_are_worded() {
    assert_eq!(UQUnscrambleError::Useage.message(), "usage");
    assert_eq!(UQUnscrambleError::IoError(String::from("gone")).message(), "IO Error: gone");
    assert_eq!(
        UQUnscrambleError::ParseIntError(String::from("x")).message(),
        "Parse Int Error: x"
    );
    assert_eq!(
        UQUnscrambleError::InvalidExpression(String::from("1+")).message(),
        "Invalid Expression: 1+"
    );
}

#[test]
fn lines_give_their_words_as_passwords() {
    let mut passwords: Vec<String> = vec![String::from("first")];
    assert_eq!(process_line("alpha  beta\tgamma", &mut passwords), LineOutcome::Taken);
    assert_eq!(passwords, vec!["first", "alpha", "beta", "gamma"]);
    assert_eq!(process_line("  delta ", &mut passwords), LineOutcome::Taken);
    assert_eq!(passwords.len(), 5);
    assert_eq!(passwords[4], "delta");
    assert_eq!(process_line("", &mut passwords), LineOutcome::Empty);
    assert_eq!(process_line(" \t \r", &mut passwords), LineOutcome::Empty);
    assert_eq!(passwords.len(), 5);
    assert_eq!(process_line("good b\u{7}d", &mut passwords), LineOutcome::InvalidCharacter);
    assert_eq!(process_line("naïve", &mut passwords), LineOutcome::InvalidCharacter);
    assert_eq!(process_line("a\u{0B}b", &mut passwords), LineOutcome::InvalidCharacter);
    assert_eq!(passwords.len(), 5);
}

#[test]
fn entropy_arguments_are_read() {
    let args = |items: &[&str]| -> Vec<String> { items.iter().map(|s| s.to_string()).collect() };
    let parsed = parse_arguments(&args(&["uqentropy"])).unwrap();
    assert_eq!(parsed.config, Config::new());
    assert!(parsed.filenames.is_empty());

    let parsed = parse_arguments(&args(&["uqentropy", "list.txt", "--leet", ""])).unwrap();
    assert_eq!(parsed.config, Config::new());
    assert_eq!(parsed.filenames, vec!["list.txt", "--leet", ""]);

    let parsed = parse_arguments(&args(&[
        "uqentropy",
        "--leet",
        "--digit-append",
        "3",
        "--case",
        "--double",
        "a.txt",
        "b.txt",
    ]))
    .unwrap();
    assert_eq!(
        parsed.config,
        Config {
            leet: true,
            case_sensitive: true,
            digit_append: true,
            double_check: true,
            num_digits: 3
        }
    );
    assert_eq!(parsed.filenames, vec!["a.txt", "b.txt"]);
    let parsed = parse_arguments(&args(&["uqentropy", "--digit-append", "+8", "f"])).unwrap();
    assert_eq!(parsed.config.num_digits, 8);
}

#[test]
fn wrong_entropy_arguments_are_a_usage_error() {
    let args = |items: &[&str]| -> Vec<String> { items.iter().map(|s| s.to_string()).collect() };
    for bad in [
        vec!["uqentropy", "--leet"],
        vec!["uqentropy", "--case"],
        vec!["uqentropy", "--double"],
        vec!["uqentropy", "--digit-append", "3"],
        vec!["uqentropy", "--digit-append"],
        vec!["uqentropy", "--digit-append", "0", "f"],
        vec!["uqentropy", "--digit-append", "9", "f"],
        vec!["uqentropy", "--digit-append", "x", "f"],
        vec!["uqentropy", "--unknown", "f"],
        vec!["uqentropy", "-x"],
        vec!["uqentropy", ""],
        vec!["uqentropy", "--leet", ""],
    ] {
        let error = parse_arguments(&args(&bad)).unwrap_err();
        assert!(matches!(error, UQEntropyError::Usage));
    }
}
