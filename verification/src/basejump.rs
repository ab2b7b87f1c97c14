//! The base converter: digits, conversion between a number and its text
//! in bases 2 to 36, expressions rewritten in another base, and the command
//! line.

use crate::args::{bounded_decimal, parse_bounded};
use crate::text::{is_digit, is_lower, is_upper, same_text};
use vstd::prelude::*;
use vstd::string::*;

verus! {

/// The smallest base.
pub const MIN_BASE: u32 = 2;

/// The largest base.
pub const MAX_BASE: u32 = 36;

/// What can go wrong with a number or an expression.
#[derive(Clone, Copy, Debug, PartialEq, Eq, Structural)]
pub enum ExprError {
    /// A character is no digit in any base.
    InvalidDigit,
    /// A digit is too large for the base.
    DigitOutOfRange,
    /// A number does not fit into 128 bits.
    Overflow,
    /// The expression is not numbers with operators between them.
    InvalidExpression,
    /// A character is neither a digit, an operator nor white space.
    InvalidCharacter,
    /// A sum or product does not fit, a difference is negative, or a
    /// divisor is zero.
    Arithmetic,
}

/// The text of an error.
pub open spec fn error_text(error: ExprError) -> Seq<char> {
    match error {
        ExprError::InvalidDigit => "invalid digit"@,
        ExprError::DigitOutOfRange => "digit out of range"@,
        ExprError::Overflow => "overflow"@,
        ExprError::InvalidExpression => "invalid expression"@,
        ExprError::InvalidCharacter => "invalid character"@,
        ExprError::Arithmetic => "overflow or invalid op"@,
    }
}

impl ExprError {
    /// The error in words.
    pub fn message(&self) -> (text: String)
        ensures
            text@ == error_text(*self),
    {
        match self {
            ExprError::InvalidDigit => String::from_str("invalid digit"),
            ExprError::DigitOutOfRange => String::from_str("digit out of range"),
            ExprError::Overflow => String::from_str("overflow"),
            ExprError::InvalidExpression => String::from_str("invalid expression"),
            ExprError::InvalidCharacter => String::from_str("invalid character"),
            ExprError::Arithmetic => String::from_str("overflow or invalid op"),
        }
    }
}

/// The value of a character as a digit: `0` to `9` are 0 to 9, and the
/// letters, in either case, are 10 to 35.
pub open spec fn digit_of(c: char) -> Option<u8> {
    if is_digit(c) {
        Some((c as u8 - '0' as u8) as u8)
    } else if is_lower(c) {
        Some((10 + c as u8 - 'a' as u8) as u8)
    } else if is_upper(c) {
        Some((10 + c as u8 - 'A' as u8) as u8)
    } else {
        None
    }
}

/// The character of a digit below 36: `0` to `9`, then `a` to `z`.
pub open spec fn char_of(d: u8) -> char {
    if d < 10 {
        ('0' as u8 + d) as char
    } else {
        ('a' as u8 + (d - 10)) as char
    }
}

/// The value of a character as a digit, if it is one.
pub fn char_to_digit(c: char) -> (d: Option<u8>)
    ensures
        d == digit_of(c),
        d is Some ==> d->Some_0 < 36,
{
    if '0' <= c && c <= '9' {
        Some(c as u8 - 48u8)
    } else if 'a' <= c && c <= 'z' {
        Some(10 + (c as u8 - 97u8))
    } else if 'A' <= c && c <= 'Z' {
        Some(10 + (c as u8 - 65u8))
    } else {
        None
    }
}

/// The character of a digit below 36.
pub fn digit_to_char(d: u8) -> (c: char)
    requires
        d < 36,
    ensures
        c == char_of(d),
        digit_of(c) == Some(d),
{
    if d < 10 {
        (48u8 + d) as char
    } else {
        (97u8 + (d - 10)) as char
    }
}

/// The number that digits write in a base, and the first thing that is
/// wrong where they write none: a character that is no digit, a digit that
/// the base does not have, or a value beyond 128 bits.
pub open spec fn number_in_base(digits: Seq<char>, base: u32) -> Result<u128, ExprError>
    decreases digits.len(),
{
    if digits.len() == 0 {
        Ok(0)
    } else {
        match number_in_base(digits.drop_last(), base) {
            Err(error) => Err(error),
            Ok(value) => match digit_of(digits.last()) {
                None => Err(ExprError::InvalidDigit),
                Some(d) => if d >= base {
                    Err(ExprError::DigitOutOfRange)
                } else if value * base + d > u128::MAX {
                    Err(ExprError::Overflow)
                } else {
                    Ok((value * base + d) as u128)
                },
            },
        }
    }
}

/// Reads a number written in a base.
pub fn convert_str_to_int_any_base(num: &str, base: u32) -> (value: Result<u128, ExprError>)
    ensures
        value == number_in_base(num@, base),
{
    let n: usize = num.unicode_len();
    let mut value: u128 = 0;
    let mut i: usize = 0;
    assert(num@.take(0) =~= Seq::<char>::empty());
    while i < n
        invariant
            i <= n,
            n == num@.len(),
            number_in_base(num@.take(i as int), base) == Ok::<u128, ExprError>(value),
        decreases n - i,
    {
        let c: char = num.get_char(i);
        proof {
            assert(num@.take(i + 1).drop_last() =~= num@.take(i as int));
            lemma_error_stays(num@, base, i + 1);
        }
        let digit: u8 = match char_to_digit(c) {
            Some(digit) => digit,
            None => {
                return Err(ExprError::InvalidDigit);
            },
        };
        if digit as u32 >= base {
            return Err(ExprError::DigitOutOfRange);
        }
        let scaled: u128 = match value.checked_mul(base as u128) {
            Some(scaled) => scaled,
            None => {
                return Err(ExprError::Overflow);
            },
        };
        value = match scaled.checked_add(digit as u128) {
            Some(sum) => sum,
            None => {
                return Err(ExprError::Overflow);
            },
        };
        i += 1;
    }
    assert(num@.take(n as int) =~= num@);
    Ok(value)
}

/// Once the beginning of a text fails to write a number, the whole text
/// fails in the same way.
pub proof fn lemma_error_stays(digits: Seq<char>, base: u32, n: int)
    requires
        0 <= n <= digits.len(),
    ensures
        number_in_base(digits.take(n), base) is Err ==> number_in_base(digits, base)
            == number_in_base(digits.take(n), base),
    decreases digits.len() - n,
{
    if n < digits.len() {
        lemma_error_stays(digits, base, n + 1);
        assert(digits.take(n + 1).drop_last() =~= digits.take(n));
    } else {
        assert(digits.take(n) =~= digits);
    }
}

/// The digits of a number in a base, most significant first; zero is
/// written as one digit.
pub open spec fn digits_in_base(value: nat, base: nat) -> Seq<char>
    recommends
        2 <= base <= 36,
    decreases value,
    via digits_shrink
{
    if base < 2 || value < base {
        seq![char_of(value as u8)]
    } else {
        digits_in_base(value / base, base).push(char_of((value % base) as u8))
    }
}

/// The quotient that `digits_in_base` goes on with is smaller than the number.
#[via_fn]
proof fn digits_shrink(value: nat, base: nat) {
    if !(base < 2 || value < base) {
        lemma_quotient_smaller(value, base);
    }
}

/// Dividing a number that is not zero by 2 or more makes it smaller.
pub proof fn lemma_quotient_smaller(value: nat, base: nat)
    requires
        base >= 2,
        value >= 1,
    ensures
        value / base < value,
{
    assert(value / base < value) by (nonlinear_arith)
        requires
            base >= 2,
            value >= 1,
    ;
}

/// The character of a digit below 36, as a text.
fn digit_text(d: u8) -> (text: &'static str)
    requires
        d < 36,
    ensures
        text@ == seq![char_of(d)],
{
    proof {
        reveal_strlit("0");
        reveal_strlit("1");
        reveal_strlit("2");
        reveal_strlit("3");
        reveal_strlit("4");
        reveal_strlit("5");
        reveal_strlit("6");
        reveal_strlit("7");
        reveal_strlit("8");
        reveal_strlit("9");
        reveal_strlit("a");
        reveal_strlit("b");
        reveal_strlit("c");
        reveal_strlit("d");
        reveal_strlit("e");
        reveal_strlit("f");
        reveal_strlit("g");
        reveal_strlit("h");
        reveal_strlit("i");
        reveal_strlit("j");
        reveal_strlit("k");
        reveal_strlit("l");
        reveal_strlit("m");
        reveal_strlit("n");
        reveal_strlit("o");
        reveal_strlit("p");
        reveal_strlit("q");
        reveal_strlit("r");
        reveal_strlit("s");
        reveal_strlit("t");
        reveal_strlit("u");
        reveal_strlit("v");
        reveal_strlit("w");
        reveal_strlit("x");
        reveal_strlit("y");
        reveal_strlit("z");
    }
    let text = match d {
        0 => "0",
        1 => "1",
        2 => "2",
        3 => "3",
        4 => "4",
        5 => "5",
        6 => "6",
        7 => "7",
        8 => "8",
        9 => "9",
        10 => "a",
        11 => "b",
        12 => "c",
        13 => "d",
        14 => "e",
        15 => "f",
        16 => "g",
        17 => "h",
        18 => "i",
        19 => "j",
        20 => "k",
        21 => "l",
        22 => "m",
        23 => "n",
        24 => "o",
        25 => "p",
        26 => "q",
        27 => "r",
        28 => "s",
        29 => "t",
        30 => "u",
        31 => "v",
        32 => "w",
        33 => "x",
        34 => "y",
        _ => "z",
    };
    assert(text@ =~= seq![char_of(d)]);
    text
}

/// Appends a number in a base.
pub fn push_in_base(out: &mut String, value: u128, base: u32)
    requires
        MIN_BASE <= base <= MAX_BASE,
    ensures
        final(out)@ == old(out)@ + digits_in_base(value as nat, base as nat),
    decreases value,
{
    let wide: u128 = base as u128;
    if value >= wide {
        proof {
            lemma_quotient_smaller(value as nat, base as nat);
        }
        push_in_base(out, value / wide, base);
        let last: u128 = value % wide;
        assert(last < wide) by (nonlinear_arith)
            requires
                last == value % wide,
                wide > 0,
        ;
        out.append(digit_text(last as u8));
    } else {
        out.append(digit_text(value as u8));
    }
    assert(final(out)@ =~= old(out)@ + digits_in_base(value as nat, base as nat));
}

/// Writes a number in a base.
pub fn convert_int_to_str_any_base(value: u128, base: u32) -> (text: String)
    requires
        MIN_BASE <= base <= MAX_BASE,
    ensures
        text@ == digits_in_base(value as nat, base as nat),
{
    let mut text = String::new();
    push_in_base(&mut text, value, base);
    assert(text@ =~= digits_in_base(value as nat, base as nat));
    text
}

/// A number that is written in a base and read back in that base is the
/// same number.
pub proof fn lemma_base_round_trip(value: u128, base: u32)
    requires
        MIN_BASE <= base <= MAX_BASE,
    ensures
        number_in_base(digits_in_base(value as nat, base as nat), base) == Ok::<u128, ExprError>(
            value,
        ),
    decreases value,
{
    let digits = digits_in_base(value as nat, base as nat);
    if value < base {
        assert(digits =~= seq![char_of(value as u8)]);
        assert(digits.drop_last() =~= Seq::<char>::empty());
        assert(number_in_base(digits.drop_last(), base) == Ok::<u128, ExprError>(0));
        assert(digit_of(char_of(value as u8)) == Some(value as u8));
        assert(digits.last() == char_of(value as u8));
        assert(0 * base + value == value);
        assert(number_in_base(digits, base) == Ok::<u128, ExprError>(value));
    } else {
        let front = (value / (base as u128)) as u128;
        let rest = value % (base as u128);
        assert(rest < base) by (nonlinear_arith)
            requires
                rest == value % (base as u128),
                base > 0,
        ;
        let last = rest as u8;
        lemma_quotient_smaller(value as nat, base as nat);
        lemma_base_round_trip(front, base);
        assert(digits =~= digits_in_base(front as nat, base as nat).push(char_of(last)));
        assert(digits.drop_last() =~= digits_in_base(front as nat, base as nat));
        assert(digit_of(char_of(last)) == Some(last));
        assert(front * base + last == value) by (nonlinear_arith)
            requires
                front == value / (base as u128),
                last == value % (base as u128),
                base > 0,
        ;
        assert(digits.last() == char_of(last));
        assert(number_in_base(digits.drop_last(), base) == Ok::<u128, ExprError>(front));
        assert(number_in_base(digits, base) == Ok::<u128, ExprError>(value));
    }
}

/// Converts a number from one base to another.
pub fn convert_any_base_to_base(num: &str, from: u32, to: u32) -> (text: Result<String, ExprError>)
    requires
        MIN_BASE <= to <= MAX_BASE,
    ensures
        match number_in_base(num@, from) {
            Ok(value) => text is Ok && text->Ok_0@ == digits_in_base(value as nat, to as nat),
            Err(error) => text == Err::<String, ExprError>(error),
        },
{
    match convert_str_to_int_any_base(num, from) {
        Ok(value) => Ok(convert_int_to_str_any_base(value, to)),
        Err(error) => Err(error),
    }
}

/// Converts a number from a base to base ten.
pub fn convert_any_base_to_base_ten(num: &str, base: u32) -> (text: Result<String, ExprError>)
    ensures
        match number_in_base(num@, base) {
            Ok(value) => text is Ok && text->Ok_0@ == digits_in_base(value as nat, 10),
            Err(error) => text == Err::<String, ExprError>(error),
        },
{
    convert_any_base_to_base(num, base, 10)
}

/// The base that a text names: a decimal number from 2 to 36, digits only.
pub open spec fn base_of(text: Seq<char>) -> Option<u32> {
    match bounded_decimal(text, MAX_BASE) {
        Some(base) => if base >= MIN_BASE {
            Some(base)
        } else {
            None
        },
        None => None,
    }
}

/// Reads a base.
pub fn check_base(base_str: &str) -> (base: Option<u32>)
    ensures
        base == base_of(base_str@),
{
    match parse_bounded(base_str, MAX_BASE) {
        Some(base) => if base >= MIN_BASE {
            Some(base)
        } else {
            None
        },
        None => None,
    }
}

/// Whether a character is one of the four operators.
pub open spec fn operator(ch: char) -> bool {
    ch == '+' || ch == '-' || ch == '*' || ch == '/'
}

/// Whether a character is one of the four operators.
pub fn is_operator(ch: char) -> (yes: bool)
    ensures
        yes == operator(ch),
{
    ch == '+' || ch == '-' || ch == '*' || ch == '/'
}

/// How tightly an operator binds: 2 for `*` and `/`, 1 for `+` and `-`,
/// and 0 for what is no operator.
pub open spec fn binding(op: char) -> u8 {
    if op == '+' || op == '-' {
        1
    } else if op == '*' || op == '/' {
        2
    } else {
        0
    }
}

/// How tightly an operator binds.
pub fn precedence(op: char) -> (level: u8)
    ensures
        level == binding(op),
{
    if op == '+' || op == '-' {
        1
    } else if op == '*' || op == '/' {
        2
    } else {
        0
    }
}

/// The bases read so far and the characters of the base that is being read.
pub type BaseScan = (Seq<u32>, Seq<char>);

/// The list with the base that is being read added: the text must name a
/// base that is not in the list yet.
pub open spec fn with_base(scan: BaseScan) -> Option<Seq<u32>> {
    match base_of(scan.1) {
        Some(base) => if scan.0.contains(base) {
            None
        } else {
            Some(scan.0.push(base))
        },
        None => None,
    }
}

/// Reads a list of bases character by character: a comma ends a base.
pub open spec fn bases_scanned(src: Seq<char>) -> Option<BaseScan>
    decreases src.len(),
{
    if src.len() == 0 {
        Some((Seq::empty(), Seq::empty()))
    } else {
        match bases_scanned(src.drop_last()) {
            None => None,
            Some(scan) => if src.last() == ',' {
                match with_base(scan) {
                    Some(bases) => Some((bases, Seq::empty())),
                    None => None,
                }
            } else {
                Some((scan.0, scan.1.push(src.last())))
            },
        }
    }
}

/// The bases that a text lists: bases separated by commas, none of them
/// empty, none of them twice.
pub open spec fn bases_of(src: Seq<char>) -> Option<Seq<u32>> {
    match bases_scanned(src) {
        Some(scan) => with_base(scan),
        None => None,
    }
}

/// Once the beginning of a list of bases fails, the whole list fails.
pub proof fn lemma_bases_error_stays(src: Seq<char>, n: int)
    requires
        0 <= n <= src.len(),
    ensures
        bases_scanned(src.take(n)) is None ==> bases_scanned(src) is None,
    decreases src.len() - n,
{
    if n < src.len() {
        lemma_bases_error_stays(src, n + 1);
        assert(src.take(n + 1).drop_last() =~= src.take(n));
    } else {
        assert(src.take(n) =~= src);
    }
}

/// A list of bases that was asked for is not in order.
#[derive(Clone, Copy, Debug, PartialEq, Eq, Structural)]
pub struct InvalidBases;

/// Whether a list of bases holds a base.
fn holds(bases: &Vec<u32>, base: u32) -> (yes: bool)
    ensures
        yes == bases@.contains(base),
{
    let mut i: usize = 0;
    while i < bases.len()
        invariant
            i <= bases@.len(),
            forall|k: int| 0 <= k < i ==> bases@[k] != base,
        decreases bases@.len() - i,
    {
        if bases[i] == base {
            return true;
        }
        i += 1;
    }
    false
}

/// Reads a list of bases separated by commas.
pub fn parse_output_bases(src: &str) -> (bases: Result<Vec<u32>, InvalidBases>)
    ensures
        match bases_of(src@) {
            Some(expected) => bases is Ok && bases->Ok_0@ == expected,
            None => bases is Err,
        },
{
    let n: usize = src.unicode_len();
    let mut bases: Vec<u32> = Vec::new();
    let mut start: usize = 0;
    let mut i: usize = 0;
    assert(src@.take(0) =~= Seq::<char>::empty());
    assert(src@.subrange(0, 0) =~= Seq::<char>::empty());
    while i < n
        invariant
            start <= i <= n,
            n == src@.len(),
            bases_scanned(src@.take(i as int)) == Some(
                (bases@, src@.subrange(start as int, i as int)),
            ),
        decreases n - i,
    {
        let c: char = src.get_char(i);
        proof {
            assert(src@.take(i + 1).drop_last() =~= src@.take(i as int));
            lemma_bases_error_stays(src@, i + 1);
        }
        if c == ',' {
            let base: u32 = match check_base(src.substring_char(start, i)) {
                Some(base) => base,
                None => {
                    return Err(InvalidBases);
                },
            };
            if holds(&bases, base) {
                return Err(InvalidBases);
            }
            bases.push(base);
            start = i + 1;
            assert(src@.subrange(start as int, i + 1) =~= Seq::<char>::empty());
        } else {
            assert(src@.subrange(start as int, i + 1) =~= src@.subrange(
                start as int,
                i as int,
            ).push(c));
        }
        i += 1;
    }
    assert(src@.take(n as int) =~= src@);
    let base: u32 = match check_base(src.substring_char(start, n)) {
        Some(base) => base,
        None => {
            return Err(InvalidBases);
        },
    };
    if holds(&bases, base) {
        return Err(InvalidBases);
    }
    bases.push(base);
    Ok(bases)
}

/// The text written so far and the digits of the number that is being read.
pub type Conversion = (Seq<char>, Seq<char>);

/// The text with the number that is being read written in the base `to`;
/// nothing changes where no digits are pending.
pub open spec fn with_number(state: Conversion, from: u32, to: u32) -> Result<
    Seq<char>,
    ExprError,
> {
    if state.1.len() == 0 {
        Ok(state.0)
    } else {
        match number_in_base(state.1, from) {
            Ok(value) => Ok(state.0 + digits_in_base(value as nat, to as nat)),
            Err(error) => Err(error),
        }
    }
}

/// Reads an expression character by character: an operator ends the
/// number before it, which is converted, and is copied; white space is
/// dropped; every other character belongs to a number.
pub open spec fn converting(expr: Seq<char>, from: u32, to: u32) -> Result<Conversion, ExprError>
    decreases expr.len(),
{
    if expr.len() == 0 {
        Ok((Seq::empty(), Seq::empty()))
    } else {
        match converting(expr.drop_last(), from, to) {
            Err(error) => Err(error),
            Ok(state) => {
                let c = expr.last();
                if operator(c) {
                    match with_number(state, from, to) {
                        Ok(text) => Ok((text.push(c), Seq::empty())),
                        Err(error) => Err(error),
                    }
                } else if crate::expression::white_space(c) {
                    Ok(state)
                } else {
                    Ok((state.0, state.1.push(c)))
                }
            },
        }
    }
}

/// The expression with every number written in the base `to`.
pub open spec fn converted(expr: Seq<char>, from: u32, to: u32) -> Result<Seq<char>, ExprError> {
    match converting(expr, from, to) {
        Err(error) => Err(error),
        Ok(state) => with_number(state, from, to),
    }
}

/// Once the beginning of an expression cannot be converted, the whole
/// cannot, for the same reason.
pub proof fn lemma_convert_error_stays(expr: Seq<char>, from: u32, to: u32, n: int)
    requires
        0 <= n <= expr.len(),
    ensures
        converting(expr.take(n), from, to) is Err ==> converting(expr, from, to) == converting(
            expr.take(n),
            from,
            to,
        ),
    decreases expr.len() - n,
{
    if n < expr.len() {
        lemma_convert_error_stays(expr, from, to, n + 1);
        assert(expr.take(n + 1).drop_last() =~= expr.take(n));
    } else {
        assert(expr.take(n) =~= expr);
    }
}

/// An operator as a text.
fn operator_text(c: char) -> (text: &'static str)
    requires
        operator(c),
    ensures
        text@ == seq![c],
{
    proof {
        reveal_strlit("+");
        reveal_strlit("-");
        reveal_strlit("*");
        reveal_strlit("/");
    }
    let text = if c == '+' {
        "+"
    } else if c == '-' {
        "-"
    } else if c == '*' {
        "*"
    } else {
        "/"
    };
    assert(text@ =~= seq![c]);
    text
}

/// Rewrites an expression with its numbers converted from one base to
/// another. Operators stay, white space goes.
pub fn convert_expression(expr: &str, from_base: u32, to_base: u32) -> (text: Result<
    String,
    ExprError,
>)
    requires
        MIN_BASE <= to_base <= MAX_BASE,
    ensures
        match converted(expr@, from_base, to_base) {
            Ok(expected) => text is Ok && text->Ok_0@ == expected,
            Err(error) => text == Err::<String, ExprError>(error),
        },
{
    let n: usize = expr.unicode_len();
    let mut out = String::new();
    let mut current = String::new();
    let mut i: usize = 0;
    assert(expr@.take(0) =~= Seq::<char>::empty());
    while i < n
        invariant
            i <= n,
            n == expr@.len(),
            MIN_BASE <= to_base <= MAX_BASE,
            converting(expr@.take(i as int), from_base, to_base) == Ok::<Conversion, ExprError>(
                (out@, current@),
            ),
        decreases n - i,
    {
        let c: char = expr.get_char(i);
        proof {
            assert(expr@.take(i + 1).drop_last() =~= expr@.take(i as int));
            lemma_convert_error_stays(expr@, from_base, to_base, i + 1);
        }
        if is_operator(c) {
            if current.as_str().unicode_len() > 0 {
                match convert_any_base_to_base(current.as_str(), from_base, to_base) {
                    Ok(number) => {
                        out.append(number.as_str());
                    },
                    Err(error) => {
                        return Err(error);
                    },
                }
                current = String::new();
            }
            let ghost before = out@;
            out.append(operator_text(c));
            assert(out@ =~= before.push(c));
            assert(current@ =~= Seq::<char>::empty());
        } else if !crate::expression::is_white_space(c) {
            let ghost before = current@;
            let one = expr.substring_char(i, i + 1);
            assert(one@ =~= seq![c]);
            current.append(one);
            assert(current@ =~= before.push(c));
        }
        i += 1;
    }
    assert(expr@.take(n as int) =~= expr@);
    if current.as_str().unicode_len() > 0 {
        match convert_any_base_to_base(current.as_str(), from_base, to_base) {
            Ok(number) => {
                out.append(number.as_str());
            },
            Err(error) => {
                return Err(error);
            },
        }
    }
    Ok(out)
}

/// Why the converter gives up before it starts.
#[derive(Debug)]
pub enum ExitError {
    /// The command line is not understood.
    Usage,
    /// The named file cannot be read.
    File(String),
}

/// The exit status that goes with an error: 7 for the command line, 16
/// for a file.
pub open spec fn exit_status(error: ExitError) -> int {
    match error {
        ExitError::Usage => 7,
        ExitError::File(_) => 16,
    }
}

impl ExitError {
    /// The number that the process exits with.
    pub fn status(&self) -> (n: i32)
        ensures
            n == exit_status(*self),
    {
        match self {
            ExitError::Usage => 7,
            ExitError::File(_) => 16,
        }
    }

    /// The short name of the error.
    pub fn message(&self) -> (text: String)
        ensures
            text@ == match self {
                ExitError::Usage => "usage"@,
                ExitError::File(_) => "file"@,
            },
    {
        match self {
            ExitError::Usage => String::from_str("usage"),
            ExitError::File(_) => String::from_str("file"),
        }
    }
}

/// What the converter was asked to do.
#[derive(Debug)]
pub struct Arguments {
    pub input_base: u32,
    pub output_bases: Vec<u32>,
    pub input_file_name: Option<String>,
}

/// The converter's options as plain values, with which of them were given.
pub struct Options {
    pub input_base: u32,
    pub output_bases: Seq<u32>,
    pub input_file_name: Option<Seq<char>>,
    pub base_given: bool,
    pub bases_given: bool,
    pub file_given: bool,
}

/// The options when nothing is given: input in base 10, output in bases
/// 2, 10 and 16, input from the terminal.
pub open spec fn default_options() -> Options {
    Options {
        input_base: 10,
        output_bases: seq![2u32, 10u32, 16u32],
        input_file_name: None,
        base_given: false,
        bases_given: false,
        file_given: false,
    }
}

/// The options with one more given: `--inbase` with a base, `--obases`
/// with a list of bases, or `--inputfile` with a name that is not empty;
/// none of them for the second time.
pub open spec fn with_option(options: Options, key: Seq<char>, value: Seq<char>) -> Option<
    Options,
> {
    if key == "--inbase"@ {
        if !options.base_given && base_of(value) is Some {
            Some(Options { input_base: base_of(value)->Some_0, base_given: true, ..options })
        } else {
            None
        }
    } else if key == "--obases"@ {
        if !options.bases_given && bases_of(value) is Some {
            Some(Options { output_bases: bases_of(value)->Some_0, bases_given: true, ..options })
        } else {
            None
        }
    } else if key == "--inputfile"@ {
        if !options.file_given && value.len() > 0 {
            Some(Options { input_file_name: Some(value), file_given: true, ..options })
        } else {
            None
        }
    } else {
        None
    }
}

/// The options that the first `pairs` pairs of arguments give, the
/// program's name before them.
pub open spec fn options_from(args: Seq<String>, pairs: nat) -> Option<Options>
    decreases pairs,
{
    if pairs == 0 {
        Some(default_options())
    } else {
        match options_from(args, (pairs - 1) as nat) {
            Some(options) => with_option(
                options,
                args[2 * pairs - 1]@,
                args[2 * pairs as int]@,
            ),
            None => None,
        }
    }
}

/// The options that a command line gives: after the program's name, pairs
/// of an option and its value.
pub open spec fn command_line(args: Seq<String>) -> Option<Options> {
    if args.len() == 0 || args.len() % 2 == 0 {
        None
    } else {
        options_from(args, ((args.len() - 1) / 2) as nat)
    }
}

/// Once the first pairs fail, the command line fails.
pub proof fn lemma_options_error_stays(args: Seq<String>, pairs: nat, all: nat)
    requires
        pairs <= all,
    ensures
        options_from(args, pairs) is None ==> options_from(args, all) is None,
    decreases all - pairs,
{
    if pairs < all {
        lemma_options_error_stays(args, pairs + 1, all);
    }
}

/// Reads the command line of the converter, the program's name first.
pub fn parse_command_line(args: &Vec<String>) -> (parsed: Result<Arguments, ExitError>)
    ensures
        match command_line(args@) {
            Some(options) => parsed is Ok && parsed->Ok_0.input_base == options.input_base
                && parsed->Ok_0.output_bases@ == options.output_bases && match (
                parsed->Ok_0.input_file_name,
                options.input_file_name,
            ) {
                (Some(name), Some(expected)) => name@ == expected,
                (None, None) => true,
                _ => false,
            },
            None => parsed is Err && parsed->Err_0 is Usage,
        },
{
    if args.len() == 0 || args.len() % 2 == 0 {
        return Err(ExitError::Usage);
    }
    let pairs: usize = (args.len() - 1) / 2;
    let mut parsed = Arguments {
        input_base: 10,
        output_bases: Vec::new(),
        input_file_name: None,
    };
    parsed.output_bases.push(2);
    parsed.output_bases.push(10);
    parsed.output_bases.push(16);
    assert(parsed.output_bases@ =~= seq![2u32, 10u32, 16u32]);
    let mut base_given: bool = false;
    let mut bases_given: bool = false;
    let mut file_given: bool = false;
    let mut done: usize = 0;
    proof {
        reveal_strlit("--inbase");
        reveal_strlit("--obases");
        reveal_strlit("--inputfile");
    }
    while done < pairs
        invariant
            done <= pairs,
            args@.len() == 2 * pairs + 1,
            2 * pairs + 1 <= usize::MAX,
            options_from(args@, done as nat) is Some,
            ({
                let options = options_from(args@, done as nat)->Some_0;
                &&& options.input_base == parsed.input_base
                &&& options.output_bases == parsed.output_bases@
                &&& options.base_given == base_given
                &&& options.bases_given == bases_given
                &&& options.file_given == file_given
                &&& match (parsed.input_file_name, options.input_file_name) {
                    (Some(name), Some(expected)) => name@ == expected,
                    (None, None) => true,
                    _ => false,
                }
            }),
        decreases pairs - done,
    {
        proof {
            lemma_options_error_stays(args@, (done + 1) as nat, pairs as nat);
        }
        let key = args[2 * done + 1].as_str();
        let value = args[2 * done + 2].as_str();
        if same_text(key, "--inbase") {
            if base_given {
                return Err(ExitError::Usage);
            }
            match check_base(value) {
                Some(base) => {
                    parsed.input_base = base;
                },
                None => {
                    return Err(ExitError::Usage);
                },
            }
            base_given = true;
        } else if same_text(key, "--obases") {
            if bases_given {
                return Err(ExitError::Usage);
            }
            match parse_output_bases(value) {
                Ok(bases) => {
                    parsed.output_bases = bases;
                },
                Err(_) => {
                    return Err(ExitError::Usage);
                },
            }
            bases_given = true;
        } else if same_text(key, "--inputfile") {
            if file_given || value.unicode_len() == 0 {
                return Err(ExitError::Usage);
            }
            parsed.input_file_name = Some(String::from_str(value));
            file_given = true;
        } else {
            return Err(ExitError::Usage);
        }
        done += 1;
    }
    Ok(parsed)
}

/// The line that shows a number in a base: `Base <base>: <digits>`.
pub open spec fn base_line(value: u128, base: u32) -> Seq<char> {
    "Base "@ + digits_in_base(base as nat, 10) + ": "@ + digits_in_base(value as nat, base as nat)
}

/// The lines that show a number in each of the bases.
pub fn lines_in_bases(value: u128, bases: &Vec<u32>) -> (lines: Vec<String>)
    requires
        forall|i: int| 0 <= i < bases@.len() ==> MIN_BASE <= #[trigger] bases@[i] <= MAX_BASE,
    ensures
        lines@.len() == bases@.len(),
        forall|i: int|
            0 <= i < bases@.len() ==> (#[trigger] lines@[i])@ == base_line(value, bases@[i]),
{
    let mut lines: Vec<String> = Vec::new();
    let mut i: usize = 0;
    while i < bases.len()
        invariant
            i <= bases@.len(),
            lines@.len() == i,
            forall|k: int| 0 <= k < bases@.len() ==> MIN_BASE <= #[trigger] bases@[k] <= MAX_BASE,
            forall|k: int| 0 <= k < i ==> (#[trigger] lines@[k])@ == base_line(value, bases@[k]),
        decreases bases@.len() - i,
    {
        let base: u32 = bases[i];
        let mut line = String::from_str("Base ");
        push_in_base(&mut line, base as u128, 10);
        line.append(": ");
        push_in_base(&mut line, value, base);
        assert(line@ =~= base_line(value, base));
        lines.push(line);
        i += 1;
    }
    lines
}

} // verus!
