//! The arguments of the expression evaluator: its command line, numbers
//! without leading zeros, names of variables, numeric literals, and the
//! definitions of variables and loops.

use crate::args::{bounded_number, parse_number};
use crate::expression::{is_white_space, white_space};
use crate::text::{
    char_is_digit, char_is_letter, is_digit, is_letter, same_text, starts_with, texts_of,
};
use vstd::prelude::*;
use vstd::string::*;

verus! {

/// Why the expression evaluator gives up before it starts.
#[derive(Clone, Copy, Debug, PartialEq, Eq, Structural)]
pub enum ExitError {
    Usage,
    File,
    Variable,
    Duplicate,
}

/// The statuses that the expression evaluator exits with.
#[derive(Clone, Copy, Debug, PartialEq, Eq, Structural)]
pub enum ExitCodes {
    Usage,
    InvalidFile,
    Variable,
    Duplicate,
}

/// The number of an exit status.
pub open spec fn exit_code_of(code: ExitCodes) -> int {
    match code {
        ExitCodes::Usage => 18,
        ExitCodes::InvalidFile => 5,
        ExitCodes::Variable => 14,
        ExitCodes::Duplicate => 19,
    }
}

/// The exit status that goes with an error.
pub open spec fn status_of(error: ExitError) -> ExitCodes {
    match error {
        ExitError::Usage => ExitCodes::Usage,
        ExitError::File => ExitCodes::InvalidFile,
        ExitError::Variable => ExitCodes::Variable,
        ExitError::Duplicate => ExitCodes::Duplicate,
    }
}

impl ExitCodes {
    /// The number that the process exits with.
    pub fn code(self) -> (n: i32)
        ensures
            n == exit_code_of(self),
    {
        match self {
            ExitCodes::Usage => 18,
            ExitCodes::InvalidFile => 5,
            ExitCodes::Variable => 14,
            ExitCodes::Duplicate => 19,
        }
    }
}

impl ExitError {
    /// The short name of the error.
    pub fn message(&self) -> (text: String)
        ensures
            text@ == match self {
                ExitError::Usage => "usage"@,
                ExitError::File => "file"@,
                ExitError::Variable => "variable"@,
                ExitError::Duplicate => "duplicate variable"@,
            },
    {
        match self {
            ExitError::Usage => String::from_str("usage"),
            ExitError::File => String::from_str("file"),
            ExitError::Variable => String::from_str("variable"),
            ExitError::Duplicate => String::from_str("duplicate variable"),
        }
    }

    /// The exit status that goes with the error.
    pub fn status(self) -> (code: ExitCodes)
        ensures
            code == status_of(self),
    {
        match self {
            ExitError::Usage => ExitCodes::Usage,
            ExitError::File => ExitCodes::InvalidFile,
            ExitError::Variable => ExitCodes::Variable,
            ExitError::Duplicate => ExitCodes::Duplicate,
        }
    }
}

/// What can go wrong while an expression is read and evaluated. Errors of
/// the system and of number parsing are kept by their text.
#[derive(Debug)]
pub enum UQExprError {
    IoError(String),
    ParseIntError(String),
    InvalidExpression(String),
}

impl UQExprError {
    /// The error in words.
    pub fn message(&self) -> (text: String)
        ensures
            text@ == match self {
                UQExprError::IoError(detail) => "IO Error: "@ + detail@,
                UQExprError::ParseIntError(detail) => "Parse Int Error: "@ + detail@,
                UQExprError::InvalidExpression(detail) => "Invalid Expression: "@ + detail@,
            },
    {
        match self {
            UQExprError::IoError(detail) => String::from_str("IO Error: ").concat(
                detail.as_str(),
            ),
            UQExprError::ParseIntError(detail) => String::from_str("Parse Int Error: ").concat(
                detail.as_str(),
            ),
            UQExprError::InvalidExpression(detail) => String::from_str(
                "Invalid Expression: ",
            ).concat(detail.as_str()),
        }
    }
}

/// Whether a text of more than one character begins with a zero.
pub open spec fn leading_zero(s: Seq<char>) -> bool {
    s.len() > 1 && s[0] == '0'
}

/// Whether a text of more than one character begins with a zero.
pub fn has_leading_zero(s: &str) -> (yes: bool)
    ensures
        yes == leading_zero(s@),
{
    if s.unicode_len() <= 1 {
        return false;
    }
    s.get_char(0) == '0'
}

/// Whether a character may occur in the name of a variable.
pub open spec fn name_char(c: char) -> bool {
    is_letter(c) || is_digit(c) || c == '_'
}

/// Whether a text can name a variable: 1 to 20 characters, a letter first,
/// then letters, digits and underscores.
pub open spec fn valid_var_name(name: Seq<char>) -> bool {
    &&& 0 < name.len() <= 20
    &&& is_letter(name[0])
    &&& forall|i: int| 0 <= i < name.len() ==> name_char(#[trigger] name[i])
}

/// Whether a text can name a variable.
pub fn is_valid_var_name(name: &str) -> (valid: bool)
    ensures
        valid == valid_var_name(name@),
{
    let n: usize = name.unicode_len();
    if n == 0 || n > 20 {
        return false;
    }
    if !char_is_letter(name.get_char(0)) {
        return false;
    }
    let mut i: usize = 0;
    while i < n
        invariant
            i <= n,
            n == name@.len(),
            forall|k: int| 0 <= k < i ==> name_char(#[trigger] name@[k]),
        decreases n - i,
    {
        let c: char = name.get_char(i);
        if !(char_is_letter(c) || char_is_digit(c) || c == '_') {
            assert(!name_char(name@[i as int]));
            return false;
        }
        i += 1;
    }
    true
}

/// The digits and points of a numeric text: the text without its sign.
pub open spec fn unsigned_part(s: Seq<char>) -> Seq<char> {
    if s.len() > 0 && s[0] == '-' {
        s.skip(1)
    } else {
        s
    }
}

/// Whether a text is a number: an optional minus sign, then digits with at
/// most one decimal point among them, and at least one digit.
pub open spec fn valid_numeric(s: Seq<char>) -> bool {
    let body = unsigned_part(s);
    &&& s.len() > 0
    &&& forall|i: int| 0 <= i < body.len() ==> is_digit(#[trigger] body[i]) || body[i] == '.'
    &&& forall|i: int, j: int|
        0 <= i < j < body.len() ==> !(#[trigger] body[i] == '.' && #[trigger] body[j] == '.')
    &&& exists|i: int| 0 <= i < body.len() && is_digit(#[trigger] body[i])
}

/// Whether a text is a number.
pub fn is_valid_numeric(s: &str) -> (valid: bool)
    ensures
        valid == valid_numeric(s@),
{
    let n: usize = s.unicode_len();
    if n == 0 {
        return false;
    }
    let start: usize = if s.get_char(0) == '-' {
        1
    } else {
        0
    };
    let ghost body = unsigned_part(s@);
    assert(body =~= s@.skip(start as int));
    let mut has_decimal: bool = false;
    let mut has_digit: bool = false;
    let mut i: usize = start;
    while i < n
        invariant
            start <= i <= n,
            n == s@.len(),
            body == s@.skip(start as int),
            body == unsigned_part(s@),
            forall|k: int| 0 <= k < i - start ==> is_digit(#[trigger] body[k]) || body[k] == '.',
            forall|k: int, j: int|
                0 <= k < j < i - start ==> !(#[trigger] body[k] == '.' && #[trigger] body[j]
                    == '.'),
            has_decimal == exists|k: int| 0 <= k < i - start && #[trigger] body[k] == '.',
            has_digit == exists|k: int| 0 <= k < i - start && is_digit(#[trigger] body[k]),
        decreases n - i,
    {
        let c: char = s.get_char(i);
        let ghost at = i - start;
        assert(body.len() == n - start);
        assert(body[at] == c);
        if c == '.' {
            if has_decimal {
                proof {
                    let first = choose|k: int| 0 <= k < at && #[trigger] body[k] == '.';
                    assert(0 <= first < at < body.len());
                    assert(body[first] == '.' && body[at] == '.');
                    assert(!valid_numeric(s@));
                }
                return false;
            }
            has_decimal = true;
        } else if !char_is_digit(c) {
            proof {
                assert(0 <= at < body.len());
                assert(!(is_digit(body[at]) || body[at] == '.'));
                assert(!valid_numeric(s@));
            }
            return false;
        } else {
            has_digit = true;
        }
        i += 1;
    }
    has_digit
}

/// What the command line of the expression evaluator asks for.
#[derive(Debug)]
pub struct Config {
    pub init_string_vec: Vec<String>,
    pub significant_figures: u8,
    pub for_loop_vec: Vec<String>,
    pub input_filename: String,
    pub figure_flag: bool,
    pub filename_flag: bool,
}

/// What the command line asks for, as plain values.
pub struct ConfigView {
    pub init_string_vec: Seq<Seq<char>>,
    pub significant_figures: u8,
    pub for_loop_vec: Seq<Seq<char>>,
    pub input_filename: Seq<char>,
    pub figure_flag: bool,
    pub filename_flag: bool,
}

impl View for Config {
    type V = ConfigView;

    open spec fn view(&self) -> ConfigView {
        ConfigView {
            init_string_vec: texts_of(self.init_string_vec@),
            significant_figures: self.significant_figures,
            for_loop_vec: texts_of(self.for_loop_vec@),
            input_filename: self.input_filename@,
            figure_flag: self.figure_flag,
            filename_flag: self.filename_flag,
        }
    }
}

/// What is asked for when nothing is given: four significant figures.
pub open spec fn default_config() -> ConfigView {
    ConfigView {
        init_string_vec: Seq::empty(),
        significant_figures: 4,
        for_loop_vec: Seq::empty(),
        input_filename: Seq::empty(),
        figure_flag: false,
        filename_flag: false,
    }
}

/// The number of significant figures that a text asks for: a number from 2
/// to 8 without leading zeros.
pub open spec fn figures_of(text: Seq<char>) -> Option<u8> {
    if !leading_zero(text) && bounded_number(text, 255) is Some && 2 <= bounded_number(
        text,
        255,
    )->Some_0 <= 8 {
        Some(bounded_number(text, 255)->Some_0 as u8)
    } else {
        None
    }
}

/// Reads the arguments from position `i` on. `--init` and `--forloop`
/// each take a text and may come any number of times; `--significantfigures`
/// takes a number and may come once; the name of the input file comes last
/// and does not begin with two dashes. No argument is empty.
pub open spec fn config_from(args: Seq<String>, i: nat, config: ConfigView) -> Option<ConfigView>
    decreases args.len() - i,
{
    if i >= args.len() {
        Some(config)
    } else {
        let word = args[i as int]@;
        if word.len() == 0 {
            None
        } else if word == "--init"@ {
            if i + 1 < args.len() {
                config_from(
                    args,
                    i + 2,
                    ConfigView {
                        init_string_vec: config.init_string_vec.push(args[i as int + 1]@),
                        ..config
                    },
                )
            } else {
                None
            }
        } else if word == "--significantfigures"@ {
            if i + 1 < args.len() && !config.figure_flag && figures_of(args[i as int + 1]@)
                is Some {
                config_from(
                    args,
                    i + 2,
                    ConfigView {
                        significant_figures: figures_of(args[i as int + 1]@)->Some_0,
                        figure_flag: true,
                        ..config
                    },
                )
            } else {
                None
            }
        } else if word == "--forloop"@ {
            if i + 1 < args.len() {
                config_from(
                    args,
                    i + 2,
                    ConfigView {
                        for_loop_vec: config.for_loop_vec.push(args[i as int + 1]@),
                        ..config
                    },
                )
            } else {
                None
            }
        } else if i + 1 == args.len() && !"--"@.is_prefix_of(word) {
            Some(ConfigView { input_filename: word, filename_flag: true, ..config })
        } else {
            None
        }
    }
}

/// Reads the command line of the expression evaluator, the program's name
/// first.
pub fn handle_command_line_arguments(args: &Vec<String>) -> (parsed: Result<Config, ExitError>)
    ensures
        match config_from(args@, 1, default_config()) {
            Some(config) => parsed is Ok && parsed->Ok_0@ == config,
            None => parsed == Err::<Config, ExitError>(ExitError::Usage),
        },
{
    let mut config = Config {
        init_string_vec: Vec::new(),
        significant_figures: 4,
        for_loop_vec: Vec::new(),
        input_filename: String::new(),
        figure_flag: false,
        filename_flag: false,
    };
    let ghost whole = config_from(args@, 1, default_config());
    let mut i: usize = 1;
    proof {
        reveal_strlit("--init");
        reveal_strlit("--significantfigures");
        reveal_strlit("--forloop");
        reveal_strlit("--");
        assert(config@.init_string_vec =~= Seq::<Seq<char>>::empty());
        assert(config@.for_loop_vec =~= Seq::<Seq<char>>::empty());
        assert("--"@ =~= "--init"@.subrange(0, 2));
        assert("--"@ =~= "--significantfigures"@.subrange(0, 2));
        assert("--"@ =~= "--forloop"@.subrange(0, 2));
    }
    while i < args.len()
        invariant
            1 <= i,
            whole == config_from(args@, 1, default_config()),
            config_from(args@, i as nat, config@) == whole,
            !config.filename_flag,
            "--init"@.len() == 6,
            "--significantfigures"@.len() == 20,
            "--forloop"@.len() == 9,
            "--"@.is_prefix_of("--init"@),
            "--"@.is_prefix_of("--significantfigures"@),
            "--"@.is_prefix_of("--forloop"@),
        decreases args@.len() - i,
    {
        let word = args[i].as_str();
        assert(word@ == args@[i as int]@);
        let ghost before = config@;
        if word.unicode_len() == 0 {
            return Err(ExitError::Usage);
        }
        if same_text(word, "--init") {
            if i + 1 >= args.len() {
                return Err(ExitError::Usage);
            }
            config.init_string_vec.push(args[i + 1].clone());
            assert(config@.init_string_vec =~= before.init_string_vec.push(args@[i + 1]@));
            i += 2;
        } else if same_text(word, "--significantfigures") {
            if i + 1 >= args.len() || config.figure_flag {
                return Err(ExitError::Usage);
            }
            let text = args[i + 1].as_str();
            if has_leading_zero(text) {
                return Err(ExitError::Usage);
            }
            match parse_number(text, 255) {
                Some(figures) => {
                    if figures < 2 || figures > 8 {
                        return Err(ExitError::Usage);
                    }
                    config.significant_figures = figures as u8;
                },
                None => {
                    return Err(ExitError::Usage);
                },
            }
            config.figure_flag = true;
            i += 2;
        } else if same_text(word, "--forloop") {
            if i + 1 >= args.len() {
                return Err(ExitError::Usage);
            }
            config.for_loop_vec.push(args[i + 1].clone());
            assert(config@.for_loop_vec =~= before.for_loop_vec.push(args@[i + 1]@));
            i += 2;
        } else {
            if i != args.len() - 1 || starts_with(word, "--") {
                return Err(ExitError::Usage);
            }
            config.input_filename = args[i].clone();
            config.filename_flag = true;
            return Ok(config);
        }
    }
    Ok(config)
}

/// The text without the white space at its beginning.
pub open spec fn trim_start(text: Seq<char>) -> Seq<char>
    decreases text.len(),
{
    if text.len() > 0 && white_space(text[0]) {
        trim_start(text.skip(1))
    } else {
        text
    }
}

/// The text without the white space at its end.
pub open spec fn trim_end(text: Seq<char>) -> Seq<char>
    decreases text.len(),
{
    if text.len() > 0 && white_space(text.last()) {
        trim_end(text.drop_last())
    } else {
        text
    }
}

/// The text without the white space around it.
pub open spec fn trim(text: Seq<char>) -> Seq<char> {
    trim_end(trim_start(text))
}

/// The part of a text from `from` to `to` without the white space around it.
pub fn trim_part(text: &str, from: usize, to: usize) -> (part: String)
    requires
        from <= to <= text@.len(),
    ensures
        part@ == trim(text@.subrange(from as int, to as int)),
{
    let mut start: usize = from;
    let ghost whole = text@.subrange(from as int, to as int);
    while start < to && is_white_space(text.get_char(start))
        invariant
            from <= start <= to <= text@.len(),
            whole == text@.subrange(from as int, to as int),
            trim_start(whole) == trim_start(text@.subrange(start as int, to as int)),
        decreases to - start,
    {
        assert(text@.subrange(start as int, to as int).skip(1) =~= text@.subrange(
            start + 1,
            to as int,
        ));
        start += 1;
    }
    let mut end: usize = to;
    let ghost front = text@.subrange(start as int, to as int);
    assert(trim_start(whole) == front);
    while end > start && is_white_space(text.get_char(end - 1))
        invariant
            start <= end <= to <= text@.len(),
            front == text@.subrange(start as int, to as int),
            trim_end(front) == trim_end(text@.subrange(start as int, end as int)),
        decreases end - start,
    {
        assert(text@.subrange(start as int, end as int).drop_last() =~= text@.subrange(
            start as int,
            end - 1,
        ));
        end -= 1;
    }
    String::from_str(text.substring_char(start, end))
}

/// The position of the first copy of a character in a text.
pub open spec fn first_of(text: Seq<char>, c: char) -> Option<int> {
    if text.contains(c) {
        Some(choose|i: int| 0 <= i < text.len() && text[i] == c && !text.take(i).contains(c))
    } else {
        None
    }
}

/// Finds the first copy of a character from `from` on.
pub fn find_char(text: &str, c: char, from: usize) -> (at: Option<usize>)
    requires
        from <= text@.len(),
    ensures
        at is Some ==> from <= at->Some_0 < text@.len() && text@[at->Some_0 as int] == c,
        at is Some ==> forall|k: int| from <= k < at->Some_0 ==> text@[k] != c,
        at is None ==> forall|k: int| from <= k < text@.len() ==> text@[k] != c,
{
    let n: usize = text.unicode_len();
    let mut i: usize = from;
    while i < n
        invariant
            from <= i <= n,
            n == text@.len(),
            forall|k: int| from <= k < i ==> text@[k] != c,
        decreases n - i,
    {
        if text.get_char(i) == c {
            return Some(i);
        }
        i += 1;
    }
    None
}

/// A variable with the text of its value.
#[derive(Debug)]
pub struct Definition {
    pub name: String,
    pub value: String,
}

/// What `name=value` defines, given the names that are taken: the name and
/// the value without the white space around them. The text must hold an
/// equals sign, the name must be a name, not taken, and the value a number.
pub open spec fn definition_of(text: Seq<char>, taken: Seq<Seq<char>>) -> Result<
    (Seq<char>, Seq<char>),
    ExitError,
> {
    match first_of(text, '=') {
        None => Err(ExitError::Variable),
        Some(at) => {
            let name = trim(text.take(at));
            let value = trim(text.skip(at + 1));
            if !valid_var_name(name) {
                Err(ExitError::Variable)
            } else if taken.contains(name) {
                Err(ExitError::Duplicate)
            } else if !valid_numeric(value) {
                Err(ExitError::Variable)
            } else {
                Ok((name, value))
            }
        },
    }
}

/// Whether a list of names holds a name.
pub fn is_taken(taken: &Vec<String>, name: &str) -> (yes: bool)
    ensures
        yes == texts_of(taken@).contains(name@),
{
    let mut i: usize = 0;
    while i < taken.len()
        invariant
            i <= taken@.len(),
            forall|k: int| 0 <= k < i ==> texts_of(taken@)[k] != name@,
        decreases taken@.len() - i,
    {
        if same_text(taken[i].as_str(), name) {
            assert(texts_of(taken@)[i as int] == name@);
            return true;
        }
        i += 1;
    }
    false
}

/// Reads `name=value`, given the names that are taken.
pub fn check_definition(text: &str, taken: &Vec<String>) -> (definition: Result<
    Definition,
    ExitError,
>)
    ensures
        match definition_of(text@, texts_of(taken@)) {
            Ok(expected) => definition is Ok && definition->Ok_0.name@ == expected.0
                && definition->Ok_0.value@ == expected.1,
            Err(error) => definition is Err && definition->Err_0 == error,
        },
{
    let n: usize = text.unicode_len();
    let at: usize = match find_char(text, '=', 0) {
        Some(at) => at,
        None => {
            assert(!text@.contains('='));
            return Err(ExitError::Variable);
        },
    };
    proof {
        assert(text@.contains('='));
        let first = first_of(text@, '=')->Some_0;
        assert(0 <= first < text@.len() && text@[first] == '=' && !text@.take(first).contains(
            '=',
        ));
        if first < at {
            assert(text@[first] != '=');
        }
        if at < first {
            assert(text@.take(first)[at as int] == '=');
        }
        assert(first == at);
        assert(text@.take(at as int) =~= text@.subrange(0, at as int));
        assert(text@.skip(at + 1) =~= text@.subrange(at + 1, n as int));
    }
    let name = trim_part(text, 0, at);
    let value = trim_part(text, at + 1, n);
    if !is_valid_var_name(name.as_str()) {
        return Err(ExitError::Variable);
    }
    if is_taken(taken, name.as_str()) {
        return Err(ExitError::Duplicate);
    }
    if !is_valid_numeric(value.as_str()) {
        return Err(ExitError::Variable);
    }
    Ok(Definition { name, value })
}

/// A loop variable with the texts of its start, its step and its end.
#[derive(Debug)]
pub struct LoopTexts {
    pub name: String,
    pub start: String,
    pub increment: String,
    pub end: String,
}

/// A loop as plain values: name, start, step, end.
pub type LoopView = (Seq<char>, Seq<char>, Seq<char>, Seq<char>);

/// Whether `a`, `b` and `c` are the positions of the only three commas of
/// a text.
pub open spec fn three_commas(text: Seq<char>, a: int, b: int, c: int) -> bool {
    &&& 0 <= a < b < c < text.len()
    &&& forall|k: int| 0 <= k < text.len() ==> (#[trigger] text[k] == ',' <==> (k == a || k == b
        || k == c))
}

/// What `name,start,step,end` defines, given the names that are taken:
/// the four parts without the white space around them. The text must hold
/// exactly three commas, the name must be a name, not taken, and the other
/// parts numbers.
pub open spec fn loop_of(text: Seq<char>, taken: Seq<Seq<char>>) -> Result<LoopView, ExitError> {
    if exists|a: int, b: int, c: int| three_commas(text, a, b, c) {
        let (a, b, c) = choose|a: int, b: int, c: int| three_commas(text, a, b, c);
        let name = trim(text.subrange(0, a));
        let start = trim(text.subrange(a + 1, b));
        let increment = trim(text.subrange(b + 1, c));
        let end = trim(text.subrange(c + 1, text.len() as int));
        if !valid_var_name(name) {
            Err(ExitError::Variable)
        } else if taken.contains(name) {
            Err(ExitError::Duplicate)
        } else if !valid_numeric(start) || !valid_numeric(end) || !valid_numeric(increment) {
            Err(ExitError::Variable)
        } else {
            Ok((name, start, increment, end))
        }
    } else {
        Err(ExitError::Variable)
    }
}

/// The three commas of a text are where they are.
pub proof fn lemma_commas_unique(text: Seq<char>, a: int, b: int, c: int, x: int, y: int, z: int)
    requires
        three_commas(text, a, b, c),
        three_commas(text, x, y, z),
    ensures
        a == x,
        b == y,
        c == z,
{
    assert(text[a] == ',');
    assert(text[b] == ',');
    assert(text[c] == ',');
    assert(text[x] == ',');
    assert(text[y] == ',');
    assert(text[z] == ',');
}

/// Reads `name,start,step,end`, given the names that are taken.
pub fn check_loop(text: &str, taken: &Vec<String>) -> (parsed: Result<LoopTexts, ExitError>)
    ensures
        match loop_of(text@, texts_of(taken@)) {
            Ok(expected) => parsed is Ok && parsed->Ok_0.name@ == expected.0
                && parsed->Ok_0.start@ == expected.1 && parsed->Ok_0.increment@ == expected.2
                && parsed->Ok_0.end@ == expected.3,
            Err(error) => parsed is Err && parsed->Err_0 == error,
        },
{
    let n: usize = text.unicode_len();
    let a: usize = match find_char(text, ',', 0) {
        Some(a) => a,
        None => {
            proof {
                if exists|a: int, b: int, c: int| three_commas(text@, a, b, c) {
                    let (x, y, z) = choose|a: int, b: int, c: int| three_commas(text@, a, b, c);
                    assert(text@[x] == ',');
                }
            }
            return Err(ExitError::Variable);
        },
    };
    let b: usize = match find_char(text, ',', a + 1) {
        Some(b) => b,
        None => {
            proof {
                if exists|a: int, b: int, c: int| three_commas(text@, a, b, c) {
                    let (x, y, z) = choose|a: int, b: int, c: int| three_commas(text@, a, b, c);
                    assert(text@[x] == ',');
                    assert(text@[y] == ',');
                }
            }
            return Err(ExitError::Variable);
        },
    };
    let c: usize = match find_char(text, ',', b + 1) {
        Some(c) => c,
        None => {
            proof {
                if exists|a: int, b: int, c: int| three_commas(text@, a, b, c) {
                    let (x, y, z) = choose|a: int, b: int, c: int| three_commas(text@, a, b, c);
                    assert(text@[x] == ',');
                    assert(text@[y] == ',');
                    assert(text@[z] == ',');
                }
            }
            return Err(ExitError::Variable);
        },
    };
    if find_char(text, ',', c + 1).is_some() {
        proof {
            let extra = find_char_witness(text@, c + 1);
            if exists|a: int, b: int, c: int| three_commas(text@, a, b, c) {
                let (x, y, z) = choose|a: int, b: int, c: int| three_commas(text@, a, b, c);
                assert(text@[x] == ',');
                assert(text@[y] == ',');
                assert(text@[z] == ',');
                assert(text@[a as int] == ',');
                assert(text@[b as int] == ',');
                assert(text@[c as int] == ',');
                assert(text@[extra] == ',');
            }
        }
        return Err(ExitError::Variable);
    }
    proof {
        assert(three_commas(text@, a as int, b as int, c as int));
        let (x, y, z) = choose|a: int, b: int, c: int| three_commas(text@, a, b, c);
        lemma_commas_unique(text@, a as int, b as int, c as int, x, y, z);
    }
    let name = trim_part(text, 0, a);
    let start = trim_part(text, a + 1, b);
    let increment = trim_part(text, b + 1, c);
    let end = trim_part(text, c + 1, n);
    if !is_valid_var_name(name.as_str()) {
        return Err(ExitError::Variable);
    }
    if is_taken(taken, name.as_str()) {
        return Err(ExitError::Duplicate);
    }
    if !is_valid_numeric(start.as_str()) || !is_valid_numeric(end.as_str()) || !is_valid_numeric(
        increment.as_str(),
    ) {
        return Err(ExitError::Variable);
    }
    Ok(LoopTexts { name, start, increment, end })
}

/// A position of a comma at or after `from`, where there is one.
spec fn find_char_witness(text: Seq<char>, from: int) -> int {
    choose|k: int| from <= k < text.len() && text[k] == ','
}

} // verus!
