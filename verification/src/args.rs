//! The arguments of the server, `maxconns message [port]`, and the reading
//! of decimal numbers in arguments.

use crate::text::{char_is_digit, is_digit};
use vstd::prelude::*;
use vstd::string::*;

verus! {

/// The most connections that a server can be asked to serve at a time.
pub const MAX_CONNECTIONS: usize = 10000;

/// The highest port number.
pub const MAX_PORT: u32 = 65535;

/// The exit status for arguments that are not understood.
pub const USAGE_STATUS: i32 = 8;

/// The exit status for a port that cannot be used.
pub const PORT_STATUS: i32 = 17;

/// The value of a digit.
pub open spec fn digit_value(c: char) -> nat {
    (c as nat - '0' as nat) as nat
}

/// The number that a text of digits writes in decimal.
pub open spec fn decimal_value(digits: Seq<char>) -> nat
    decreases digits.len(),
{
    if digits.len() == 0 {
        0
    } else {
        decimal_value(digits.drop_last()) * 10 + digit_value(digits.last())
    }
}

/// Whether a text is made of digits only, and of at least one.
pub open spec fn all_digits(text: Seq<char>) -> bool {
    text.len() > 0 && forall|i: int| 0 <= i < text.len() ==> is_digit(#[trigger] text[i])
}

/// The number that a text writes, where it is a decimal number that is
/// not greater than `limit`.
pub open spec fn bounded_decimal(text: Seq<char>, limit: u32) -> Option<u32> {
    if all_digits(text) && decimal_value(text) <= limit {
        Some(decimal_value(text) as u32)
    } else {
        None
    }
}

/// A longer text of digits writes a number that is not smaller.
pub proof fn lemma_decimal_grows(digits: Seq<char>, n: int)
    requires
        0 <= n <= digits.len(),
    ensures
        decimal_value(digits.take(n)) <= decimal_value(digits),
    decreases digits.len() - n,
{
    if n < digits.len() {
        lemma_decimal_grows(digits, n + 1);
        assert(digits.take(n + 1).drop_last() =~= digits.take(n));
    } else {
        assert(digits.take(n) =~= digits);
    }
}

/// Reads a decimal number that is not greater than `limit`: digits only,
/// without a sign.
pub fn parse_bounded(text: &str, limit: u32) -> (value: Option<u32>)
    ensures
        value == bounded_decimal(text@, limit),
{
    let n: usize = text.unicode_len();
    if n == 0 {
        return None;
    }
    let mut value: u32 = 0;
    let mut i: usize = 0;
    assert(decimal_value(text@.take(0)) == 0);
    while i < n
        invariant
            i <= n,
            n == text@.len(),
            forall|k: int| 0 <= k < i ==> is_digit(#[trigger] text@[k]),
            value == decimal_value(text@.take(i as int)),
            value <= limit,
        decreases n - i,
    {
        let c: char = text.get_char(i);
        if !char_is_digit(c) {
            assert(!is_digit(text@[i as int]));
            return None;
        }
        let digit: u32 = (c as u32) - ('0' as u32);
        proof {
            assert(text@.take(i + 1).drop_last() =~= text@.take(i as int));
            assert(decimal_value(text@.take(i + 1)) == value * 10 + digit);
            lemma_decimal_grows(text@, i + 1);
        }
        let next: u64 = (value as u64) * 10 + (digit as u64);
        if next > limit as u64 {
            return None;
        }
        value = next as u32;
        i += 1;
    }
    assert(text@.take(n as int) =~= text@);
    Some(value)
}

/// The digits of a number: the text without a plus sign in front.
pub open spec fn unsigned_digits(text: Seq<char>) -> Seq<char> {
    if text.len() > 0 && text[0] == '+' {
        text.skip(1)
    } else {
        text
    }
}

/// The number that a text writes, where it is a decimal number, with or
/// without a plus sign in front, that is not greater than `limit`.
pub open spec fn bounded_number(text: Seq<char>, limit: u32) -> Option<u32> {
    bounded_decimal(unsigned_digits(text), limit)
}

/// Reads a decimal number that is not greater than `limit`; a plus sign
/// may stand in front.
pub fn parse_number(text: &str, limit: u32) -> (value: Option<u32>)
    ensures
        value == bounded_number(text@, limit),
{
    let n: usize = text.unicode_len();
    if n > 0 && text.get_char(0) == '+' {
        let digits = text.substring_char(1, n);
        assert(digits@ =~= text@.skip(1));
        parse_bounded(digits, limit)
    } else {
        parse_bounded(text, limit)
    }
}

/// What the server was asked to do.
#[derive(Debug)]
pub struct Arguments {
    pub maxconns: usize,
    pub port: Option<String>,
    pub message: String,
}

/// Why the server's arguments are turned down.
#[derive(Clone, Copy, Debug, PartialEq, Eq, Structural)]
pub enum ArgumentError {
    /// The arguments are not `maxconns message [port]`.
    Usage,
    /// The port is not a number from 0 to 65535.
    Port,
}

/// The exit status that goes with an error.
pub open spec fn argument_status(error: ArgumentError) -> int {
    match error {
        ArgumentError::Usage => USAGE_STATUS as int,
        ArgumentError::Port => PORT_STATUS as int,
    }
}

impl ArgumentError {
    /// The number that the process exits with.
    pub fn status(self) -> (n: i32)
        ensures
            n == argument_status(self),
    {
        match self {
            ArgumentError::Usage => USAGE_STATUS,
            ArgumentError::Port => PORT_STATUS,
        }
    }
}

/// Whether the arguments, the program's name first, have the shape
/// `maxconns message [port]` with nothing empty and a number of
/// connections, with or without a plus sign, from 1 to the most that can be
/// asked for.
pub open spec fn usage_ok(args: Seq<String>) -> bool {
    &&& (args.len() == 3 || args.len() == 4)
    &&& forall|i: int| 1 <= i < args.len() ==> (#[trigger] args[i])@.len() > 0
    &&& bounded_number(args[1]@, MAX_CONNECTIONS as u32) is Some
    &&& bounded_number(args[1]@, MAX_CONNECTIONS as u32)->Some_0 > 0
}

/// Whether the port, if one is given, is a number from 0 to 65535.
pub open spec fn port_ok(args: Seq<String>) -> bool {
    args.len() == 4 ==> bounded_decimal(args[3]@, MAX_PORT) is Some
}

/// Reads the arguments of the server, the program's name first.
pub fn parse_arguments(args: &Vec<String>) -> (parsed: Result<Arguments, ArgumentError>)
    ensures
        !usage_ok(args@) ==> parsed == Err::<Arguments, ArgumentError>(ArgumentError::Usage),
        usage_ok(args@) && !port_ok(args@) ==> parsed == Err::<Arguments, ArgumentError>(
            ArgumentError::Port,
        ),
        usage_ok(args@) && port_ok(args@) ==> parsed is Ok && parsed->Ok_0.maxconns
            == bounded_number(args@[1]@, MAX_CONNECTIONS as u32)->Some_0 && parsed->Ok_0.message@
            == args@[2]@ && (args@.len() == 3 ==> parsed->Ok_0.port is None) && (args@.len() == 4
            ==> parsed->Ok_0.port is Some && parsed->Ok_0.port->Some_0@ == args@[3]@),
{
    if args.len() != 3 && args.len() != 4 {
        return Err(ArgumentError::Usage);
    }
    let mut i: usize = 1;
    while i < args.len()
        invariant
            1 <= i <= args@.len(),
            forall|k: int| 1 <= k < i ==> (#[trigger] args@[k])@.len() > 0,
        decreases args@.len() - i,
    {
        if args[i].as_str().unicode_len() == 0 {
            return Err(ArgumentError::Usage);
        }
        i += 1;
    }
    let maxconns: usize = match parse_number(args[1].as_str(), MAX_CONNECTIONS as u32) {
        Some(n) => n as usize,
        None => {
            return Err(ArgumentError::Usage);
        },
    };
    if maxconns == 0 {
        return Err(ArgumentError::Usage);
    }
    let port: Option<String> = if args.len() == 4 {
        if parse_bounded(args[3].as_str(), MAX_PORT).is_none() {
            return Err(ArgumentError::Port);
        }
        Some(args[3].clone())
    } else {
        None
    };
    Ok(Arguments { maxconns, port, message: args[2].clone() })
}

} // verus!
