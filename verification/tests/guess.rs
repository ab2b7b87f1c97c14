use rats::entropy::Config;
use rats::guess::{
    can_stand_for, check_case_match, check_digit_append_match, check_double_match,
    check_leet_match, count_guesses, dfs, do_basic_match, equal_ignoring_case, look_alike_count,
    Search,
};

fn list(items: &[&str]) -> Vec<String> {
    items.iter().map(|s| s.to_string()).collect()
}

fn hit(n: u64) -> Search {
    Search { matched: Some(n), checked: n }
}

fn miss(n: u64) -> Search {
    Search { matched: None, checked: n }
}

#[test]
fn lookup_counts_one_guess_per_entry() {
    let known = list(&["123456", "password", "qwerty"]);
    assert_eq!(do_basic_match("123456", &known, 0), hit(1));
    assert_eq!(do_basic_match("password", &known, 0), hit(2));
    assert_eq!(do_basic_match("qwerty", &known, 0), hit(3));
    assert_eq!(do_basic_match("Password", &known, 0), miss(3));
    assert_eq!(do_basic_match("password", &known, 10), hit(12));
    assert_eq!(do_basic_match("x", &Vec::new(), 5), miss(5));
    assert_eq!(do_basic_match("a", &list(&["a", "a"]), 0), hit(1));
}

#[test]
fn counts_stay_at_the_largest_number() {
    let known = list(&["a", "b"]);
    assert_eq!(do_basic_match("b", &known, u64::MAX - 1), hit(u64::MAX));
    assert_eq!(do_basic_match("c", &known, u64::MAX), miss(u64::MAX));
}

#[test]
fn case_is_ignored_for_ascii_letters() {
    assert!(equal_ignoring_case("PassWord1", "pASSwORD1"));
    assert!(equal_ignoring_case("", ""));
    assert!(!equal_ignoring_case("password", "passw0rd"));
    assert!(!equal_ignoring_case("abc", "abcd"));
    assert!(!equal_ignoring_case("é", "É"));
    assert!(!equal_ignoring_case("[", "{"));
    assert!(!equal_ignoring_case("@", "`"));
}

#[test]
fn mixing_case_costs_two_to_the_letters() {
    // "ab1" has 2 letters: 3 guesses; "xyz" has 3 letters: 7 guesses.
    let known = list(&["ab1", "xyz", "123"]);
    assert_eq!(check_case_match("AB1", &known, 0), hit(3));
    assert_eq!(check_case_match("xYz", &known, 0), hit(10));
    assert_eq!(check_case_match("123", &known, 0), hit(10));
    assert_eq!(check_case_match("none", &known, 0), miss(10));
    assert_eq!(check_case_match("xYz", &known, 100), hit(110));
}

#[test]
fn mixing_case_of_long_entries_is_capped() {
    let long = "a".repeat(70);
    let known = vec![long.clone()];
    assert_eq!(check_case_match("b", &known, 0), miss(u64::MAX - 1));
    assert_eq!(check_case_match(&long.to_uppercase(), &known, 5), hit(u64::MAX));
    let sixty_three = vec!["a".repeat(63)];
    assert_eq!(check_case_match("b", &sixty_three, 0), miss((1u64 << 63) - 1));
}

#[test]
fn pairs_are_tried_in_order() {
    let known = list(&["ab", "cd", "ef"]);
    assert_eq!(check_double_match("abab", &known, 0), hit(1));
    assert_eq!(check_double_match("abcd", &known, 0), hit(2));
    assert_eq!(check_double_match("cdab", &known, 0), hit(4));
    assert_eq!(check_double_match("efef", &known, 0), hit(9));
    assert_eq!(check_double_match("abc", &known, 0), miss(9));
    assert_eq!(check_double_match("", &known, 0), miss(9));
    assert_eq!(check_double_match("efef", &known, 7), hit(16));
    assert_eq!(check_double_match("x", &Vec::new(), 7), miss(7));
}

#[test]
fn pairs_with_an_empty_entry() {
    let known = list(&["", "ab"]);
    assert_eq!(check_double_match("ab", &known, 0), hit(2));
    assert_eq!(check_double_match("", &known, 0), hit(1));
    assert_eq!(check_double_match("abab", &known, 0), hit(4));
}

#[test]
fn digits_are_appended_in_rising_order() {
    let known = list(&["pass", "word9", "key"]);
    // One digit: 0..9 are guesses 1..10.
    assert_eq!(check_digit_append_match("pass0", &known, 2, 0), hit(1));
    assert_eq!(check_digit_append_match("pass9", &known, 2, 0), hit(10));
    // Two digits follow the ten one-digit guesses.
    assert_eq!(check_digit_append_match("pass00", &known, 2, 0), hit(11));
    assert_eq!(check_digit_append_match("pass07", &known, 2, 0), hit(18));
    assert_eq!(check_digit_append_match("pass99", &known, 2, 0), hit(110));
    // Three digits are not tried with two digits asked for.
    assert_eq!(check_digit_append_match("pass123", &known, 2, 0), miss(220));
    // "word9" ends in a digit and is skipped; "key" comes after 110 guesses.
    assert_eq!(check_digit_append_match("key5", &known, 2, 0), hit(116));
    assert_eq!(check_digit_append_match("word95", &known, 2, 0), miss(220));
    assert_eq!(check_digit_append_match("pass", &known, 2, 0), miss(220));
    assert_eq!(check_digit_append_match("passx", &known, 2, 0), miss(220));
    assert_eq!(check_digit_append_match("key5", &known, 2, 1000), hit(1116));
    assert_eq!(check_digit_append_match("pass12345678", &known, 8, 0), hit(11111110 + 12345679));
    assert_eq!(check_digit_append_match("nothing1", &known, 8, 0), miss(222222220));
    assert_eq!(check_digit_append_match("pass1", &known, 0, 0), miss(0));
}

#[test]
fn an_empty_entry_ends_the_appending() {
    let known = list(&["pass", "", "key"]);
    assert_eq!(check_digit_append_match("key5", &known, 1, 0), miss(10));
    assert_eq!(check_digit_append_match("pass5", &known, 1, 0), hit(6));
}

#[test]
fn look_alikes_are_counted() {
    assert_eq!(look_alike_count('a'), 2);
    assert_eq!(look_alike_count('A'), 2);
    assert_eq!(look_alike_count('e'), 1);
    assert_eq!(look_alike_count('q'), 0);
    assert_eq!(look_alike_count('4'), 0);
    assert!(can_stand_for('a', 'a'));
    assert!(can_stand_for('a', '4'));
    assert!(can_stand_for('A', '@'));
    assert!(can_stand_for('s', '$'));
    assert!(can_stand_for('x', '%'));
    assert!(can_stand_for('q', 'q'));
    assert!(!can_stand_for('a', 'A'));
    assert!(!can_stand_for('a', '3'));
    assert!(!can_stand_for('q', '9'));
    assert!(!can_stand_for('4', 'a'));
}

#[test]
fn dfs_matches_position_by_position() {
    assert!(dfs("p455w0rd", "password", 0));
    assert!(dfs("pa$sword", "password", 0));
    assert!(dfs("password", "password", 0));
    assert!(!dfs("p455w0rt", "password", 0));
    assert!(dfs("p455w0rt", "password", 8));
    assert!(!dfs("x455w0rd", "password", 0));
    assert!(dfs("x455w0rd", "password", 1));
    assert!(dfs("", "", 0));
}

#[test]
fn look_alikes_cost_the_number_of_variants() {
    // "at": a has 2 look-alikes, t has 2: 3*3-1 = 8 guesses.
    // "key": e has 1: 2-1 = 1 guess.  "mmm": none, skipped.
    let known = list(&["at", "mmm", "key"]);
    assert_eq!(check_leet_match("@7", &known, 0), hit(8));
    assert_eq!(check_leet_match("at", &known, 0), hit(8));
    assert_eq!(check_leet_match("k3y", &known, 0), hit(9));
    assert_eq!(check_leet_match("mmm", &known, 0), miss(9));
    assert_eq!(check_leet_match("k3y!", &known, 0), miss(9));
    assert_eq!(check_leet_match("k3y", &known, 100), hit(109));
}

#[test]
fn ways_of_guessing_are_tried_in_turn() {
    let known = list(&["pass", "word"]);
    let mut config = Config::new();
    assert_eq!(count_guesses("word", &known, &config), hit(2));
    assert_eq!(count_guesses("Word", &known, &config), miss(2));
    config.case_sensitive = true;
    // 2 lookups, then "pass" costs 15 and "word" 15.
    assert_eq!(count_guesses("Word", &known, &config), hit(32));
    assert_eq!(count_guesses("word7", &known, &config), miss(32));
    config.digit_append = true;
    config.num_digits = 1;
    // After 32: "pass" + 10 digits, then "word7" is the 8th of "word".
    assert_eq!(count_guesses("word7", &known, &config), hit(50));
    assert_eq!(count_guesses("wordpass", &known, &config), miss(52));
    config.double_check = true;
    // After 52: pass+pass, pass+word, word+pass.
    assert_eq!(count_guesses("wordpass", &known, &config), hit(55));
    assert_eq!(count_guesses("w0rd", &known, &config), miss(56));
    config.leet = true;
    // After 56: "pass" has a, s, s: 27-1 = 26; "word" has o: 1.
    assert_eq!(count_guesses("w0rd", &known, &config), hit(83));
    assert_eq!(count_guesses("p@$5", &known, &config), hit(82));
    assert_eq!(count_guesses("zzz", &known, &config), miss(83));
    // With the other ways off, look-alikes follow the lookup directly.
    let only_leet = Config { leet: true, ..Config::new() };
    assert_eq!(count_guesses("w0rd", &known, &only_leet), hit(29));
}
