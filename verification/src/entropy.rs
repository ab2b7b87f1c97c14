//! The password checker: which characters a password may hold, how many
//! letters it has, which kinds of characters occur, the usual
//! letter-for-digit substitutions, the lines of a list of passwords, and
//! the command line.

use crate::args::{bounded_number, parse_number};
use crate::text::{
    char_is_digit, char_is_graphic, char_is_letter, char_is_space, is_digit, is_graphic, is_letter,
    is_lower, is_space, is_upper, same_text, texts_of,
};
use vstd::prelude::*;
use vstd::string::*;

verus! {

/// What went wrong while a list of passwords was set up.
#[derive(Debug)]
pub enum UQEntropyError {
    /// The command line is not understood.
    Usage,
    /// A file could not be used; the payload names it.
    File(String),
}

impl UQEntropyError {
    /// The short name of the error.
    pub fn message(&self) -> (text: String)
        ensures
            text@ == match self {
                UQEntropyError::Usage => "usage"@,
                UQEntropyError::File(_) => "file"@,
            },
    {
        match self {
            UQEntropyError::Usage => String::from_str("usage"),
            UQEntropyError::File(_) => String::from_str("file"),
        }
    }
}

/// Which ways of guessing a password are tried beyond looking it up.
#[derive(Clone, Copy, Debug, PartialEq, Eq, Structural)]
pub struct Config {
    pub leet: bool,
    pub case_sensitive: bool,
    pub digit_append: bool,
    pub double_check: bool,
    pub num_digits: usize,
}

impl Config {
    /// Nothing beyond looking the password up.
    pub fn new() -> (config: Config)
        ensures
            config == (Config {
                leet: false,
                case_sensitive: false,
                digit_append: false,
                double_check: false,
                num_digits: 0,
            }),
    {
        Config {
            leet: false,
            case_sensitive: false,
            digit_append: false,
            double_check: false,
            num_digits: 0,
        }
    }
}

impl Default for Config {
    fn default() -> (config: Config)
        ensures
            config == (Config {
                leet: false,
                case_sensitive: false,
                digit_append: false,
                double_check: false,
                num_digits: 0,
            }),
    {
        Config::new()
    }
}

/// Whether a character may occur in a password: printable ASCII or ASCII
/// white space.
pub open spec fn allowed_in_password(c: char) -> bool {
    is_graphic(c) || is_space(c)
}

/// Whether the text can be a password: not empty, and made of allowed
/// characters only.
pub open spec fn valid_password(password: Seq<char>) -> bool {
    password.len() > 0 && forall|i: int|
        0 <= i < password.len() ==> allowed_in_password(#[trigger] password[i])
}

/// Whether the text can be a password.
pub fn check_password_is_valid(password: &str) -> (valid: bool)
    ensures
        valid == valid_password(password@),
{
    let n: usize = password.unicode_len();
    if n == 0 {
        return false;
    }
    let mut i: usize = 0;
    while i < n
        invariant
            i <= n,
            n == password@.len(),
            forall|k: int| 0 <= k < i ==> allowed_in_password(#[trigger] password@[k]),
        decreases n - i,
    {
        let c: char = password.get_char(i);
        if !(char_is_graphic(c) || char_is_space(c)) {
            assert(!allowed_in_password(password@[i as int]));
            return false;
        }
        i += 1;
    }
    true
}

/// How many of the characters are ASCII letters.
pub open spec fn letter_count(s: Seq<char>) -> nat
    decreases s.len(),
{
    if s.len() == 0 {
        0
    } else {
        letter_count(s.drop_last()) + if is_letter(s.last()) {
            1nat
        } else {
            0nat
        }
    }
}

/// Counts the ASCII letters of a text.
pub fn get_letter_count(s: &str) -> (count: i32)
    requires
        s@.len() <= i32::MAX,
    ensures
        count == letter_count(s@),
{
    let n: usize = s.unicode_len();
    let mut count: i32 = 0;
    let mut i: usize = 0;
    while i < n
        invariant
            i <= n,
            n == s@.len(),
            n <= i32::MAX,
            count == letter_count(s@.take(i as int)),
            count <= i,
        decreases n - i,
    {
        let c: char = s.get_char(i);
        assert(s@.take(i + 1).drop_last() =~= s@.take(i as int));
        if char_is_letter(c) {
            count += 1;
        }
        i += 1;
    }
    assert(s@.take(n as int) =~= s@);
    count
}

/// The size of the alphabet that a password draws on: 10 for digits, 26
/// for lower-case letters, 26 for upper-case letters and 32 for anything
/// else, each counted once if a character of the kind occurs.
pub open spec fn alphabet_size(password: Seq<char>) -> nat {
    (if exists|i: int| 0 <= i < password.len() && is_digit(#[trigger] password[i]) {
        10nat
    } else {
        0nat
    }) + (if exists|i: int| 0 <= i < password.len() && is_lower(#[trigger] password[i]) {
        26nat
    } else {
        0nat
    }) + (if exists|i: int| 0 <= i < password.len() && is_upper(#[trigger] password[i]) {
        26nat
    } else {
        0nat
    }) + (if exists|i: int|
        0 <= i < password.len() && !is_digit(#[trigger] password[i]) && !is_letter(password[i]) {
        32nat
    } else {
        0nat
    })
}

/// The size of the alphabet that a password draws on.
pub fn symbol_count(password: &str) -> (size: u32)
    ensures
        size == alphabet_size(password@),
{
    let n: usize = password.unicode_len();
    let mut has_lower: bool = false;
    let mut has_upper: bool = false;
    let mut has_digit: bool = false;
    let mut has_symbol: bool = false;
    let mut i: usize = 0;
    while i < n
        invariant
            i <= n,
            n == password@.len(),
            has_digit == exists|k: int| 0 <= k < i && is_digit(#[trigger] password@[k]),
            has_lower == exists|k: int| 0 <= k < i && is_lower(#[trigger] password@[k]),
            has_upper == exists|k: int| 0 <= k < i && is_upper(#[trigger] password@[k]),
            has_symbol == exists|k: int|
                0 <= k < i && !is_digit(#[trigger] password@[k]) && !is_letter(password@[k]),
        decreases n - i,
    {
        let c: char = password.get_char(i);
        if 'a' <= c && c <= 'z' {
            has_lower = true;
        } else if 'A' <= c && c <= 'Z' {
            has_upper = true;
        } else if char_is_digit(c) {
            has_digit = true;
        } else {
            has_symbol = true;
        }
        i += 1;
    }
    let mut size: u32 = 0;
    if has_digit {
        size += 10;
    }
    if has_lower {
        size += 26;
    }
    if has_upper {
        size += 26;
    }
    if has_symbol {
        size += 32;
    }
    size
}

/// The character that stands in for a letter in the usual substitution;
/// any other character stands for itself.
pub open spec fn leet_char(c: char) -> char {
    if c == 'a' || c == 'A' {
        '4'
    } else if c == 'e' || c == 'E' {
        '3'
    } else if c == 'i' || c == 'I' {
        '1'
    } else if c == 'o' || c == 'O' {
        '0'
    } else if c == 's' || c == 'S' {
        '5'
    } else if c == 't' || c == 'T' {
        '7'
    } else if c == 'b' || c == 'B' {
        '8'
    } else if c == 'g' || c == 'G' {
        '9'
    } else {
        c
    }
}

/// The text with every letter that has a stand-in replaced by it.
pub open spec fn leet_text(s: Seq<char>) -> Seq<char> {
    Seq::new(s.len(), |i: int| leet_char(s[i]))
}

/// Replaces every letter that has a stand-in by it.
pub fn leet_transform(password: &str) -> (result: String)
    ensures
        result@ == leet_text(password@),
{
    let n: usize = password.unicode_len();
    let mut result = String::new();
    let mut i: usize = 0;
    proof {
        reveal_strlit("4");
        reveal_strlit("3");
        reveal_strlit("1");
        reveal_strlit("0");
        reveal_strlit("5");
        reveal_strlit("7");
        reveal_strlit("8");
        reveal_strlit("9");
    }
    assert(result@ =~= leet_text(password@).take(0));
    while i < n
        invariant
            i <= n,
            n == password@.len(),
            result@ == leet_text(password@).take(i as int),
            "4"@ == seq!['4'],
            "3"@ == seq!['3'],
            "1"@ == seq!['1'],
            "0"@ == seq!['0'],
            "5"@ == seq!['5'],
            "7"@ == seq!['7'],
            "8"@ == seq!['8'],
            "9"@ == seq!['9'],
        decreases n - i,
    {
        let c: char = password.get_char(i);
        let ghost before = result@;
        if c == 'a' || c == 'A' {
            result.append("4");
        } else if c == 'e' || c == 'E' {
            result.append("3");
        } else if c == 'i' || c == 'I' {
            result.append("1");
        } else if c == 'o' || c == 'O' {
            result.append("0");
        } else if c == 's' || c == 'S' {
            result.append("5");
        } else if c == 't' || c == 'T' {
            result.append("7");
        } else if c == 'b' || c == 'B' {
            result.append("8");
        } else if c == 'g' || c == 'G' {
            result.append("9");
        } else {
            let same = password.substring_char(i, i + 1);
            assert(same@ =~= seq![c]);
            result.append(same);
        }
        assert(result@ =~= before.push(leet_char(c)));
        i += 1;
        assert(result@ =~= leet_text(password@).take(i as int));
    }
    assert(leet_text(password@).take(n as int) =~= leet_text(password@));
    result
}

/// What a line of a list of passwords holds.
#[derive(Clone, Copy, Debug, PartialEq, Eq, Structural)]
pub enum LineOutcome {
    /// A character that no password may hold; nothing was taken.
    InvalidCharacter,
    /// Nothing but white space; nothing was taken.
    Empty,
    /// One password or more, which were taken.
    Taken,
}

/// The words read so far and the characters of the word that is being read.
pub type Words = (Seq<Seq<char>>, Seq<char>);

/// The words with the word that is being read closed.
pub open spec fn with_word(words: Words) -> Seq<Seq<char>> {
    if words.1.len() == 0 {
        words.0
    } else {
        words.0.push(words.1)
    }
}

/// Reads words character by character: white space ends a word.
pub open spec fn words_scanned(line: Seq<char>) -> Words
    decreases line.len(),
{
    if line.len() == 0 {
        (Seq::empty(), Seq::empty())
    } else {
        let before = words_scanned(line.drop_last());
        if is_space(line.last()) {
            (with_word(before), Seq::empty())
        } else {
            (before.0, before.1.push(line.last()))
        }
    }
}

/// The words of a line: its runs of characters other than white space.
pub open spec fn words_of(line: Seq<char>) -> Seq<Seq<char>> {
    with_word(words_scanned(line))
}

/// Whether every character of a line may occur in a list of passwords.
pub open spec fn line_allowed(line: Seq<char>) -> bool {
    forall|i: int| 0 <= i < line.len() ==> allowed_in_password(#[trigger] line[i])
}

/// Takes the passwords of one line of a list: the words of the line, in
/// order. A line with a character that no password may hold gives nothing.
pub fn process_line(line: &str, passwords: &mut Vec<String>) -> (outcome: LineOutcome)
    ensures
        !line_allowed(line@) ==> outcome == LineOutcome::InvalidCharacter && final(passwords)@
            == old(passwords)@,
        line_allowed(line@) ==> texts_of(final(passwords)@) == texts_of(old(passwords)@)
            + words_of(line@) && outcome == if words_of(line@).len() == 0 {
            LineOutcome::Empty
        } else {
            LineOutcome::Taken
        },
{
    let n: usize = line.unicode_len();
    let mut i: usize = 0;
    while i < n
        invariant
            i <= n,
            n == line@.len(),
            forall|k: int| 0 <= k < i ==> allowed_in_password(#[trigger] line@[k]),
        decreases n - i,
    {
        let c: char = line.get_char(i);
        if !(char_is_graphic(c) || char_is_space(c)) {
            assert(!allowed_in_password(line@[i as int]));
            return LineOutcome::InvalidCharacter;
        }
        i += 1;
    }
    let ghost already = texts_of(passwords@);
    let mut taken: bool = false;
    let mut start: usize = 0;
    i = 0;
    assert(line@.take(0) =~= Seq::<char>::empty());
    assert(line@.subrange(0, 0) =~= Seq::<char>::empty());
    assert(texts_of(passwords@) =~= already + Seq::<Seq<char>>::empty());
    while i < n
        invariant
            start <= i <= n,
            n == line@.len(),
            words_scanned(line@.take(i as int)).1 == line@.subrange(start as int, i as int),
            texts_of(passwords@) == already + words_scanned(line@.take(i as int)).0,
            taken == (words_scanned(line@.take(i as int)).0.len() > 0),
        decreases n - i,
    {
        let c: char = line.get_char(i);
        let ghost before = texts_of(passwords@);
        let ghost scanned = words_scanned(line@.take(i as int));
        proof {
            assert(line@.take(i + 1).drop_last() =~= line@.take(i as int));
        }
        if char_is_space(c) {
            if start < i {
                let word = line.substring_char(start, i);
                passwords.push(String::from_str(word));
                taken = true;
                assert(texts_of(passwords@) =~= before.push(word@));
                assert(texts_of(passwords@) =~= already + words_scanned(line@.take(i + 1)).0);
            } else {
                assert(scanned.1.len() == 0);
            }
            start = i + 1;
            assert(line@.subrange(start as int, i + 1) =~= Seq::<char>::empty());
        } else {
            assert(line@.subrange(start as int, i + 1) =~= line@.subrange(
                start as int,
                i as int,
            ).push(c));
        }
        i += 1;
    }
    assert(line@.take(n as int) =~= line@);
    if start < n {
        let ghost before = texts_of(passwords@);
        let word = line.substring_char(start, n);
        passwords.push(String::from_str(word));
        taken = true;
        assert(texts_of(passwords@) =~= before.push(word@));
    }
    assert(texts_of(passwords@) =~= already + words_of(line@));
    if taken {
        LineOutcome::Taken
    } else {
        LineOutcome::Empty
    }
}

/// What the command line asks for: the ways of guessing, and the files
/// that list known passwords.
#[derive(Debug)]
pub struct Selection {
    pub config: Config,
    pub filenames: Vec<String>,
}

/// What the command line asks for, as plain values.
pub struct SelectionView {
    pub config: Config,
    pub filenames: Seq<Seq<char>>,
}

/// Reads the arguments from position `i` on: options first, then the
/// names of files. `--digit-append` takes a number from 1 to 8, with or
/// without a plus sign. The first
/// name of a file is not empty and does not begin with a dash; whatever
/// follows it is a name as well.
pub open spec fn selected_from(args: Seq<String>, i: nat, config: Config) -> Option<SelectionView>
    decreases args.len() - i,
{
    if i >= args.len() {
        Some(SelectionView { config, filenames: Seq::empty() })
    } else {
        let word = args[i as int]@;
        if word == "--leet"@ {
            selected_from(args, i + 1, Config { leet: true, ..config })
        } else if word == "--case"@ {
            selected_from(args, i + 1, Config { case_sensitive: true, ..config })
        } else if word == "--double"@ {
            selected_from(args, i + 1, Config { double_check: true, ..config })
        } else if word == "--digit-append"@ {
            if i + 1 < args.len() && bounded_number(args[i as int + 1]@, 8) is Some
                && bounded_number(args[i as int + 1]@, 8)->Some_0 >= 1 {
                selected_from(
                    args,
                    i + 2,
                    Config {
                        digit_append: true,
                        num_digits: bounded_number(args[i as int + 1]@, 8)->Some_0 as usize,
                        ..config
                    },
                )
            } else {
                None
            }
        } else if word.len() == 0 || word[0] == '-' {
            None
        } else {
            Some(SelectionView { config, filenames: texts_of(args.skip(i as int)) })
        }
    }
}

/// Whether a way of guessing is asked for that needs a list of passwords.
pub open spec fn needs_list(config: Config) -> bool {
    config.leet || config.case_sensitive || config.digit_append || config.double_check
}

/// What a command line asks for, the program's name first: nothing where
/// it is not understood, or where a way of guessing is asked for and no
/// file is named.
pub open spec fn selection_of(args: Seq<String>) -> Option<SelectionView> {
    match selected_from(
        args,
        1,
        Config {
            leet: false,
            case_sensitive: false,
            digit_append: false,
            double_check: false,
            num_digits: 0,
        },
    ) {
        Some(selection) => if needs_list(selection.config) && selection.filenames.len() == 0 {
            None
        } else {
            Some(selection)
        },
        None => None,
    }
}

/// Reads the command line, the program's name first.
pub fn parse_arguments(args: &Vec<String>) -> (parsed: Result<Selection, UQEntropyError>)
    ensures
        match selection_of(args@) {
            Some(selection) => parsed is Ok && parsed->Ok_0.config == selection.config
                && texts_of(parsed->Ok_0.filenames@) == selection.filenames,
            None => parsed is Err && parsed->Err_0 is Usage,
        },
{
    let mut config = Config::new();
    let mut filenames: Vec<String> = Vec::new();
    let ghost whole = selected_from(args@, 1, config);
    let mut i: usize = 1;
    proof {
        reveal_strlit("--leet");
        reveal_strlit("--case");
        reveal_strlit("--double");
        reveal_strlit("--digit-append");
        assert("--leet"@[2] == 'l' && "--case"@[2] == 'c' && "--double"@[2] == 'd');
        assert("--leet"@.len() == 6 && "--case"@.len() == 6 && "--double"@.len() == 8
            && "--digit-append"@.len() == 14);
    }
    while i < args.len()
        invariant
            1 <= i,
            selected_from(args@, i as nat, config) == whole,
            whole == selected_from(
                args@,
                1,
                Config {
                    leet: false,
                    case_sensitive: false,
                    digit_append: false,
                    double_check: false,
                    num_digits: 0,
                },
            ),
            filenames@.len() == 0,
            "--leet"@ != "--case"@,
            "--leet"@ != "--double"@,
            "--leet"@ != "--digit-append"@,
            "--case"@ != "--double"@,
            "--case"@ != "--digit-append"@,
            "--double"@ != "--digit-append"@,
            "--leet"@.len() == 6 && "--leet"@[0] == '-',
            "--case"@.len() == 6 && "--case"@[0] == '-',
            "--double"@.len() == 8 && "--double"@[0] == '-',
            "--digit-append"@.len() == 14 && "--digit-append"@[0] == '-',
        decreases args@.len() - i,
    {
        let word = args[i].as_str();
        assert(word@ == args@[i as int]@);
        if same_text(word, "--leet") {
            config.leet = true;
            i += 1;
        } else if same_text(word, "--case") {
            config.case_sensitive = true;
            i += 1;
        } else if same_text(word, "--double") {
            config.double_check = true;
            i += 1;
        } else if same_text(word, "--digit-append") {
            if i + 1 >= args.len() {
                return Err(UQEntropyError::Usage);
            }
            match parse_number(args[i + 1].as_str(), 8) {
                Some(digits) => {
                    if digits < 1 {
                        return Err(UQEntropyError::Usage);
                    }
                    config.num_digits = digits as usize;
                    config.digit_append = true;
                },
                None => {
                    return Err(UQEntropyError::Usage);
                },
            }
            i += 2;
        } else {
            if word.unicode_len() == 0 || word.get_char(0) == '-' {
                return Err(UQEntropyError::Usage);
            }
            let mut k: usize = i;
            while k < args.len()
                invariant
                    i <= k <= args@.len(),
                    filenames@.len() == k - i,
                    forall|j: int| 0 <= j < k - i ==> (#[trigger] filenames@[j])@ == args@[i + j]@,
                decreases args@.len() - k,
            {
                filenames.push(args[k].clone());
                k += 1;
            }
            assert(texts_of(filenames@) =~= texts_of(args@.skip(i as int)));
            return Ok(Selection { config, filenames });
        }
    }
    assert(texts_of(filenames@) =~= Seq::<Seq<char>>::empty());
    if config.leet || config.case_sensitive || config.digit_append || config.double_check {
        return Err(UQEntropyError::Usage);
    }
    Ok(Selection { config, filenames })
}

} // verus!
