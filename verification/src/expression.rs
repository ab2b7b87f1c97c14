//! Expressions of non-negative whole numbers with `+ - * /`: splitting
//! into tokens, reordering into postfix form, and evaluating.

use crate::args::decimal_value;
use crate::basejump::{binding, is_operator, operator, precedence, ExprError};
use crate::text::{char_is_digit, is_digit};
use vstd::prelude::*;
use vstd::string::*;

verus! {

/// A number or an operator.
#[derive(Clone, Copy, Debug, PartialEq, Eq, Structural)]
pub enum Token {
    Number(u128),
    Op(char),
}

/// Whether a character is white space.
pub open spec fn white_space(c: char) -> bool {
    let code = c as u32;
    (9 <= code <= 13) || code == 32 || code == 0x85 || code == 0xA0 || code == 0x1680 || (0x2000
        <= code <= 0x200A) || code == 0x2028 || code == 0x2029 || code == 0x202F || code == 0x205F
        || code == 0x3000
}

/// Whether a character is white space.
pub fn is_white_space(c: char) -> (yes: bool)
    ensures
        yes == white_space(c),
{
    let code: u32 = c as u32;
    (9 <= code && code <= 13) || code == 32 || code == 0x85 || code == 0xA0 || code == 0x1680 || (
    0x2000 <= code && code <= 0x200A) || code == 0x2028 || code == 0x2029 || code == 0x202F || code
        == 0x205F || code == 0x3000
}

/// The tokens read so far and the digits of the number that is being read.
pub type Scan = (Seq<Token>, Seq<char>);

/// The scan with the number that is being read closed: nothing changes
/// where no digits are pending; digits that fit into 128 bits become a
/// number.
pub open spec fn closed(scan: Scan) -> Result<Seq<Token>, ExprError> {
    if scan.1.len() == 0 {
        Ok(scan.0)
    } else if decimal_value(scan.1) > u128::MAX {
        Err(ExprError::Overflow)
    } else {
        Ok(scan.0.push(Token::Number(decimal_value(scan.1) as u128)))
    }
}

/// Reads an expression character by character. Digits extend the number
/// that is being read, white space is skipped, and an operator closes the
/// number before it, which must be there.
pub open spec fn scanned(expr: Seq<char>) -> Result<Scan, ExprError>
    decreases expr.len(),
{
    if expr.len() == 0 {
        Ok((Seq::empty(), Seq::empty()))
    } else {
        match scanned(expr.drop_last()) {
            Err(error) => Err(error),
            Ok(scan) => {
                let c = expr.last();
                if is_digit(c) {
                    Ok((scan.0, scan.1.push(c)))
                } else if operator(c) {
                    if scan.1.len() == 0 {
                        Err(ExprError::InvalidExpression)
                    } else {
                        match closed(scan) {
                            Err(error) => Err(error),
                            Ok(tokens) => Ok((tokens.push(Token::Op(c)), Seq::empty())),
                        }
                    }
                } else if white_space(c) {
                    Ok(scan)
                } else {
                    Err(ExprError::InvalidCharacter)
                }
            },
        }
    }
}

/// The tokens of an expression.
pub open spec fn tokens_of(expr: Seq<char>) -> Result<Seq<Token>, ExprError> {
    match scanned(expr) {
        Err(error) => Err(error),
        Ok(scan) => closed(scan),
    }
}

/// Once the beginning of an expression cannot be read, the whole cannot,
/// for the same reason.
pub proof fn lemma_scan_error_stays(expr: Seq<char>, n: int)
    requires
        0 <= n <= expr.len(),
    ensures
        scanned(expr.take(n)) is Err ==> scanned(expr) == scanned(expr.take(n)),
    decreases expr.len() - n,
{
    if n < expr.len() {
        lemma_scan_error_stays(expr, n + 1);
        assert(expr.take(n + 1).drop_last() =~= expr.take(n));
    } else {
        assert(expr.take(n) =~= expr);
    }
}

/// Splits an expression into numbers and operators.
pub fn tokenize(expr: &str) -> (tokens: Result<Vec<Token>, ExprError>)
    ensures
        match tokens_of(expr@) {
            Ok(expected) => tokens is Ok && tokens->Ok_0@ == expected,
            Err(error) => tokens == Err::<Vec<Token>, ExprError>(error),
        },
{
    let n: usize = expr.unicode_len();
    let mut tokens: Vec<Token> = Vec::new();
    let mut value: u128 = 0;
    let mut pending: bool = false;
    let mut too_large: bool = false;
    let ghost mut run: Seq<char> = Seq::empty();
    let mut i: usize = 0;
    assert(expr@.take(0) =~= Seq::<char>::empty());
    while i < n
        invariant
            i <= n,
            n == expr@.len(),
            scanned(expr@.take(i as int)) == Ok::<Scan, ExprError>((tokens@, run)),
            pending == (run.len() > 0),
            too_large == (decimal_value(run) > u128::MAX),
            !too_large ==> value == decimal_value(run),
        decreases n - i,
    {
        let c: char = expr.get_char(i);
        proof {
            assert(expr@.take(i + 1).drop_last() =~= expr@.take(i as int));
            lemma_scan_error_stays(expr@, i + 1);
        }
        if char_is_digit(c) {
            let digit: u128 = ((c as u32) - ('0' as u32)) as u128;
            proof {
                assert(run.push(c).drop_last() =~= run);
                assert(decimal_value(run.push(c)) == decimal_value(run) * 10 + digit);
            }
            if !too_large {
                match value.checked_mul(10) {
                    Some(scaled) => match scaled.checked_add(digit) {
                        Some(sum) => {
                            value = sum;
                        },
                        None => {
                            too_large = true;
                        },
                    },
                    None => {
                        too_large = true;
                    },
                }
            }
            pending = true;
            proof {
                run = run.push(c);
            }
        } else if is_operator(c) {
            if !pending {
                return Err(ExprError::InvalidExpression);
            }
            if too_large {
                return Err(ExprError::Overflow);
            }
            tokens.push(Token::Number(value));
            tokens.push(Token::Op(c));
            value = 0;
            pending = false;
            proof {
                run = Seq::empty();
            }
        } else if !is_white_space(c) {
            return Err(ExprError::InvalidCharacter);
        }
        i += 1;
    }
    assert(expr@.take(n as int) =~= expr@);
    if pending {
        if too_large {
            return Err(ExprError::Overflow);
        }
        tokens.push(Token::Number(value));
    }
    Ok(tokens)
}

/// The postfix output so far and the operators that wait.
pub type Yard = (Seq<Token>, Seq<char>);

/// Moves to the output every waiting operator, last first, that binds at
/// least as tightly as `op`, up to the first that does not.
pub open spec fn drained(yard: Yard, op: char) -> Yard
    decreases yard.1.len(),
{
    if yard.1.len() > 0 && binding(yard.1.last()) >= binding(op) {
        drained((yard.0.push(Token::Op(yard.1.last())), yard.1.drop_last()), op)
    } else {
        yard
    }
}

/// Takes the tokens one by one: a number goes to the output; an operator
/// first lets out the waiting operators that bind at least as tightly, then
/// waits itself.
pub open spec fn shunted(tokens: Seq<Token>) -> Yard
    decreases tokens.len(),
{
    if tokens.len() == 0 {
        (Seq::empty(), Seq::empty())
    } else {
        let yard = shunted(tokens.drop_last());
        match tokens.last() {
            Token::Number(_) => (yard.0.push(tokens.last()), yard.1),
            Token::Op(op) => {
                let after = drained(yard, op);
                (after.0, after.1.push(op))
            },
        }
    }
}

/// Moves every waiting operator to the output, last first.
pub open spec fn flushed(yard: Yard) -> Seq<Token>
    decreases yard.1.len(),
{
    if yard.1.len() == 0 {
        yard.0
    } else {
        flushed((yard.0.push(Token::Op(yard.1.last())), yard.1.drop_last()))
    }
}

/// The postfix form of a list of tokens.
pub open spec fn rpn_of(tokens: Seq<Token>) -> Seq<Token> {
    flushed(shunted(tokens))
}

/// Reorders tokens into postfix form, in which every operator follows its
/// operands.
pub fn to_rpn(tokens: Vec<Token>) -> (rpn: Result<Vec<Token>, ExprError>)
    ensures
        rpn is Ok,
        rpn->Ok_0@ == rpn_of(tokens@),
{
    let mut output: Vec<Token> = Vec::new();
    let mut stack: Vec<char> = Vec::new();
    let mut i: usize = 0;
    assert(tokens@.take(0) =~= Seq::<Token>::empty());
    while i < tokens.len()
        invariant
            i <= tokens@.len(),
            shunted(tokens@.take(i as int)) == (output@, stack@),
        decreases tokens@.len() - i,
    {
        let token: Token = tokens[i];
        assert(tokens@.take(i + 1).drop_last() =~= tokens@.take(i as int));
        match token {
            Token::Number(_) => {
                output.push(token);
            },
            Token::Op(op) => {
                let ghost before: Yard = (output@, stack@);
                while stack.len() > 0 && precedence(stack[stack.len() - 1]) >= precedence(op)
                    invariant
                        drained((output@, stack@), op) == drained(before, op),
                    decreases stack@.len(),
                {
                    let ghost waiting = stack@;
                    let top: char = stack[stack.len() - 1];
                    output.push(Token::Op(top));
                    stack.pop();
                    assert(stack@ =~= waiting.drop_last());
                }
                stack.push(op);
            },
        }
        i += 1;
    }
    assert(tokens@.take(tokens@.len() as int) =~= tokens@);
    while stack.len() > 0
        invariant
            flushed((output@, stack@)) == rpn_of(tokens@),
        decreases stack@.len(),
    {
        let ghost waiting = stack@;
        let top: char = stack[stack.len() - 1];
        output.push(Token::Op(top));
        stack.pop();
        assert(stack@ =~= waiting.drop_last());
    }
    Ok(output)
}

/// What an operator makes of two numbers; nothing where the result would
/// not fit, would be negative, or the divisor is zero.
pub open spec fn applied(op: char, a: u128, b: u128) -> Option<u128> {
    if op == '+' {
        if a + b <= u128::MAX {
            Some((a + b) as u128)
        } else {
            None
        }
    } else if op == '-' {
        if a >= b {
            Some((a - b) as u128)
        } else {
            None
        }
    } else if op == '*' {
        if a * b <= u128::MAX {
            Some((a * b) as u128)
        } else {
            None
        }
    } else if op == '/' {
        if b != 0 {
            Some(a / b)
        } else {
            None
        }
    } else {
        None
    }
}

/// Applies an operator to two numbers.
pub fn apply(op: char, a: u128, b: u128) -> (result: Option<u128>)
    ensures
        result == applied(op, a, b),
{
    if op == '+' {
        a.checked_add(b)
    } else if op == '-' {
        a.checked_sub(b)
    } else if op == '*' {
        a.checked_mul(b)
    } else if op == '/' {
        if b == 0 {
            None
        } else {
            Some(a / b)
        }
    } else {
        None
    }
}

/// The stack of numbers after postfix tokens were worked off: a number is
/// put on the stack; an operator replaces the two numbers on top by what it
/// makes of them.
pub open spec fn worked_off(tokens: Seq<Token>) -> Result<Seq<u128>, ExprError>
    decreases tokens.len(),
{
    if tokens.len() == 0 {
        Ok(Seq::empty())
    } else {
        match worked_off(tokens.drop_last()) {
            Err(error) => Err(error),
            Ok(stack) => match tokens.last() {
                Token::Number(n) => Ok(stack.push(n)),
                Token::Op(op) => if stack.len() < 2 {
                    Err(ExprError::InvalidExpression)
                } else {
                    match applied(op, stack[stack.len() - 2], stack[stack.len() - 1]) {
                        None => Err(ExprError::Arithmetic),
                        Some(result) => Ok(stack.take(stack.len() - 2).push(result)),
                    }
                },
            },
        }
    }
}

/// The value of postfix tokens: the one number that is left on the stack.
pub open spec fn rpn_value(tokens: Seq<Token>) -> Result<u128, ExprError> {
    match worked_off(tokens) {
        Err(error) => Err(error),
        Ok(stack) => if stack.len() == 1 {
            Ok(stack[0])
        } else {
            Err(ExprError::InvalidExpression)
        },
    }
}

/// Once the beginning of a postfix list fails, the whole list fails in the
/// same way.
pub proof fn lemma_work_error_stays(tokens: Seq<Token>, n: int)
    requires
        0 <= n <= tokens.len(),
    ensures
        worked_off(tokens.take(n)) is Err ==> worked_off(tokens) == worked_off(tokens.take(n)),
    decreases tokens.len() - n,
{
    if n < tokens.len() {
        lemma_work_error_stays(tokens, n + 1);
        assert(tokens.take(n + 1).drop_last() =~= tokens.take(n));
    } else {
        assert(tokens.take(n) =~= tokens);
    }
}

/// Evaluates postfix tokens.
pub fn eval_rpn(tokens: &Vec<Token>) -> (value: Result<u128, ExprError>)
    ensures
        value == rpn_value(tokens@),
{
    let mut stack: Vec<u128> = Vec::new();
    let mut i: usize = 0;
    assert(tokens@.take(0) =~= Seq::<Token>::empty());
    while i < tokens.len()
        invariant
            i <= tokens@.len(),
            worked_off(tokens@.take(i as int)) == Ok::<Seq<u128>, ExprError>(stack@),
        decreases tokens@.len() - i,
    {
        proof {
            assert(tokens@.take(i + 1).drop_last() =~= tokens@.take(i as int));
            lemma_work_error_stays(tokens@, i + 1);
        }
        match tokens[i] {
            Token::Number(n) => {
                stack.push(n);
            },
            Token::Op(op) => {
                if stack.len() < 2 {
                    return Err(ExprError::InvalidExpression);
                }
                let ghost before = stack@;
                let b: u128 = stack[stack.len() - 1];
                let a: u128 = stack[stack.len() - 2];
                let result: u128 = match apply(op, a, b) {
                    Some(result) => result,
                    None => {
                        return Err(ExprError::Arithmetic);
                    },
                };
                stack.pop();
                stack.pop();
                stack.push(result);
                assert(stack@ =~= before.take(before.len() - 2).push(result));
            },
        }
        i += 1;
    }
    assert(tokens@.take(tokens@.len() as int) =~= tokens@);
    if stack.len() == 1 {
        Ok(stack[0])
    } else {
        Err(ExprError::InvalidExpression)
    }
}

/// The value of an expression: its tokens, in postfix form, evaluated.
pub open spec fn value_of(expr: Seq<char>) -> Result<u128, ExprError> {
    match tokens_of(expr) {
        Err(error) => Err(error),
        Ok(tokens) => rpn_value(rpn_of(tokens)),
    }
}

/// Evaluates an expression of decimal numbers: `*` and `/` before `+` and
/// `-`, and from left to right among equals.
pub fn evaluate_expression(expr: &str) -> (value: Result<u128, ExprError>)
    ensures
        value == value_of(expr@),
        match tokens_of(expr@) {
            Ok(tokens) => tokens.len() % 2 == 1 ==> value == infix_value(tokens),
            Err(error) => value == Err::<u128, ExprError>(error),
        },
{
    proof {
        lemma_expression_value(expr@);
    }
    let tokens = match tokenize(expr) {
        Ok(tokens) => tokens,
        Err(error) => {
            return Err(error);
        },
    };
    let rpn = match to_rpn(tokens) {
        Ok(rpn) => rpn,
        Err(error) => {
            return Err(error);
        },
    };
    eval_rpn(&rpn)
}

// ---- what the value of an expression means ----
/// Whether tokens are numbers and operators in turn, a number first.
pub open spec fn alternating(tokens: Seq<Token>) -> bool {
    forall|i: int|
        0 <= i < tokens.len() ==> if i % 2 == 0 {
            (#[trigger] tokens[i]) is Number
        } else {
            tokens[i] is Op && operator(tokens[i]->Op_0)
        }
}

/// Whether tokens are numbers with one operator between each two.
pub open spec fn well_formed(tokens: Seq<Token>) -> bool {
    tokens.len() % 2 == 1 && alternating(tokens)
}

/// While an expression is read, the tokens that are closed are numbers
/// and operators in turn and end with an operator.
proof fn lemma_scan_alternates(expr: Seq<char>)
    ensures
        scanned(expr) is Ok ==> alternating(scanned(expr)->Ok_0.0) && scanned(expr)->Ok_0.0.len()
            % 2 == 0,
    decreases expr.len(),
{
    if expr.len() > 0 {
        lemma_scan_alternates(expr.drop_last());
        if scanned(expr) is Ok {
            let before = scanned(expr.drop_last())->Ok_0;
            let after = scanned(expr)->Ok_0;
            let c = expr.last();
            if !is_digit(c) && operator(c) {
                let value = decimal_value(before.1) as u128;
                assert(after.0 =~= before.0.push(Token::Number(value)).push(Token::Op(c)));
                assert forall|i: int| 0 <= i < after.0.len() implies if i % 2 == 0 {
                    (#[trigger] after.0[i]) is Number
                } else {
                    after.0[i] is Op && operator(after.0[i]->Op_0)
                } by {
                    if i < before.0.len() {
                        assert(after.0[i] == before.0[i]);
                    }
                }
            }
        }
    }
}

/// The tokens of an expression are numbers and operators in turn, a
/// number first.
pub proof fn lemma_tokens_alternate(expr: Seq<char>)
    ensures
        tokens_of(expr) is Ok ==> alternating(tokens_of(expr)->Ok_0),
{
    lemma_scan_alternates(expr);
    if tokens_of(expr) is Ok {
        let scan = scanned(expr)->Ok_0;
        let tokens = tokens_of(expr)->Ok_0;
        assert forall|i: int| 0 <= i < tokens.len() implies if i % 2 == 0 {
            (#[trigger] tokens[i]) is Number
        } else {
            tokens[i] is Op && operator(tokens[i]->Op_0)
        } by {
            if i < scan.0.len() {
                assert(tokens[i] == scan.0[i]);
            }
        }
    }
}

/// A sum that is being formed: the sum so far with the operator that
/// follows it, if there is one, and the product that is being formed.
pub type Forming = (Option<(u128, char)>, u128);

/// The value of a sum that is being formed: its product added to, or
/// taken from, the sum so far.
pub open spec fn settled(forming: Forming) -> Option<u128> {
    match forming.0 {
        None => Some(forming.1),
        Some((sum, op)) => applied(op, sum, forming.1),
    }
}

/// The sum that is being formed after one more operator and number: `*`
/// and `/` go on with the product; `+` and `-` settle the sum so far and
/// begin a new product.
pub open spec fn extended(forming: Forming, op: char, n: u128) -> Option<Forming> {
    if binding(op) == 2 {
        match applied(op, forming.1, n) {
            Some(product) => Some((forming.0, product)),
            None => None,
        }
    } else {
        match settled(forming) {
            Some(sum) => Some((Some((sum, op)), n)),
            None => None,
        }
    }
}

/// The sum that is being formed after the first number and `pairs` pairs
/// of an operator and a number; nothing once a step cannot be computed.
pub open spec fn formed(tokens: Seq<Token>, pairs: nat) -> Option<Forming>
    decreases pairs,
{
    if pairs == 0 {
        Some((None, tokens[0]->Number_0))
    } else {
        match formed(tokens, (pairs - 1) as nat) {
            Some(forming) => extended(
                forming,
                tokens[2 * pairs - 1]->Op_0,
                tokens[2 * pairs as int]->Number_0,
            ),
            None => None,
        }
    }
}

/// The value of numbers with operators between them, as it is taught:
/// products and quotients are formed first, from left to right, then sums
/// and differences, from left to right. No value where a result does not
/// fit, a difference is negative or a divisor is zero.
pub open spec fn infix_value(tokens: Seq<Token>) -> Result<u128, ExprError> {
    match formed(tokens, ((tokens.len() - 1) / 2) as nat) {
        Some(forming) => match settled(forming) {
            Some(value) => Ok(value),
            None => Err(ExprError::Arithmetic),
        },
        None => Err(ExprError::Arithmetic),
    }
}

/// What the numbers on the stack and the operators that wait stand for:
/// the sum that is being formed once the waiting `*` or `/` is applied.
spec fn standing(values: Seq<u128>, waiting: Seq<char>) -> Option<Forming> {
    if waiting.len() == 0 {
        Some((None, values[0]))
    } else if waiting.len() == 1 {
        if binding(waiting[0]) == 1 {
            Some((Some((values[0], waiting[0])), values[1]))
        } else {
            match applied(waiting[0], values[0], values[1]) {
                Some(product) => Some((None, product)),
                None => None,
            }
        }
    } else {
        match applied(waiting[1], values[1], values[2]) {
            Some(product) => Some((Some((values[0], waiting[0])), product)),
            None => None,
        }
    }
}

/// Whether a yard stands for a sum that is being formed.
spec fn stands_for(yard: Yard, forming: Option<Forming>) -> bool {
    &&& yard.1.len() <= 2
    &&& forall|i: int| 0 <= i < yard.1.len() ==> operator(#[trigger] yard.1[i])
    &&& yard.1.len() == 2 ==> binding(yard.1[0]) == 1 && binding(yard.1[1]) == 2
    &&& match worked_off(yard.0) {
        Err(error) => error == ExprError::Arithmetic && forming is None,
        Ok(values) => values.len() == yard.1.len() + 1 && standing(values, yard.1) == forming,
    }
}

/// Working off one more token goes on from where the tokens before it led.
proof fn lemma_work_push(output: Seq<Token>, token: Token)
    ensures
        worked_off(output.push(token)) == match worked_off(output) {
            Err(error) => Err(error),
            Ok(stack) => match token {
                Token::Number(n) => Ok(stack.push(n)),
                Token::Op(op) => if stack.len() < 2 {
                    Err(ExprError::InvalidExpression)
                } else {
                    match applied(op, stack[stack.len() - 2], stack[stack.len() - 1]) {
                        None => Err(ExprError::Arithmetic),
                        Some(result) => Ok(stack.take(stack.len() - 2).push(result)),
                    }
                },
            },
        },
{
    assert(output.push(token).drop_last() =~= output);
}

/// Letting out the last waiting operator applies it to the two numbers on
/// top of the stack.
proof fn lemma_let_out(yard: Yard, forming: Option<Forming>)
    requires
        stands_for(yard, forming),
        yard.1.len() > 0,
    ensures
        ({
            let out = (yard.0.push(Token::Op(yard.1.last())), yard.1.drop_last());
            &&& out.1.len() == yard.1.len() - 1
            &&& (yard.1.len() == 2 || binding(yard.1[0]) == 2) ==> stands_for(out, forming)
            &&& yard.1.len() == 1 && binding(yard.1[0]) == 1 ==> stands_for(
                out,
                match forming {
                    Some(f) => match settled(f) {
                        Some(sum) => Some((None, sum)),
                        None => None,
                    },
                    None => None,
                },
            )
        }),
{
    let out = (yard.0.push(Token::Op(yard.1.last())), yard.1.drop_last());
    lemma_work_push(yard.0, Token::Op(yard.1.last()));
    assert(operator(yard.1[yard.1.len() - 1]));
    match worked_off(yard.0) {
        Ok(values) => {
            if yard.1.len() == 2 {
                assert(operator(yard.1[0]));
                match applied(yard.1[1], values[1], values[2]) {
                    Some(product) => {
                        let after = values.take(1).push(product);
                        assert(after[0] == values[0]);
                        assert(after[1] == product);
                    },
                    None => {},
                }
            } else {
                match applied(yard.1[0], values[0], values[1]) {
                    Some(result) => {
                        let after = values.take(0).push(result);
                        assert(after[0] == result);
                    },
                    None => {},
                }
            }
        },
        Err(_) => {},
    }
}

/// What letting the waiting operators out before `op` leads to: before
/// `*` or `/` only a waiting `*` or `/` goes out; before `+` or `-`
/// everything goes out and the sum so far is settled.
proof fn lemma_drained(yard: Yard, forming: Option<Forming>, op: char)
    requires
        stands_for(yard, forming),
        operator(op),
    ensures
        ({
            let after = drained(yard, op);
            let settled_sum: Option<Forming> = match forming {
                Some(f) => match settled(f) {
                    Some(sum) => Some((None, sum)),
                    None => None,
                },
                None => None,
            };
            &&& binding(op) == 2 ==> stands_for(after, forming) && (after.1.len() == 0
                || (after.1.len() == 1 && binding(after.1[0]) == 1))
            &&& binding(op) == 1 ==> stands_for(after, settled_sum) && after.1.len() == 0
        }),
    decreases yard.1.len(),
{
    if yard.1.len() > 0 && binding(yard.1.last()) >= binding(op) {
        let out = (yard.0.push(Token::Op(yard.1.last())), yard.1.drop_last());
        lemma_let_out(yard, forming);
        assert(operator(yard.1[yard.1.len() - 1]));
        if yard.1.len() == 2 || binding(yard.1[0]) == 2 {
            lemma_drained(out, forming, op);
        } else {
            let settled_sum: Option<Forming> = match forming {
                Some(f) => match settled(f) {
                    Some(sum) => Some((None, sum)),
                    None => None,
                },
                None => None,
            };
            lemma_drained(out, settled_sum, op);
        }
    } else {
        if yard.1.len() > 0 {
            assert(operator(yard.1[yard.1.len() - 1]));
            assert(operator(yard.1[0]));
        }
        if binding(op) == 1 && forming is Some && yard.1.len() == 0 {
            match worked_off(yard.0) {
                Ok(values) => {},
                Err(_) => {},
            }
        }
    }
}

/// After the first number and `pairs` pairs of an operator and a number
/// the yard stands for the sum that is being formed.
proof fn lemma_yard_stands(tokens: Seq<Token>, pairs: nat)
    requires
        well_formed(tokens),
        2 * pairs + 1 <= tokens.len(),
    ensures
        stands_for(shunted(tokens.take(2 * pairs as int + 1)), formed(tokens, pairs)),
    decreases pairs,
{
    if pairs == 0 {
        let first = tokens.take(1);
        assert(first.drop_last() =~= Seq::<Token>::empty());
        assert(first.last() == tokens[0]);
        assert(tokens[0] is Number);
        let nothing: Yard = (Seq::empty(), Seq::empty());
        assert(shunted(first.drop_last()) == nothing);
        let yard = shunted(first);
        assert(yard == (nothing.0.push(tokens[0]), nothing.1));
        lemma_work_push(Seq::<Token>::empty(), tokens[0]);
        assert(worked_off(Seq::<Token>::empty()) == Ok::<Seq<u128>, ExprError>(Seq::empty()));
        assert(tokens.take(2 * pairs as int + 1) == first);
    } else {
        lemma_yard_stands(tokens, (pairs - 1) as nat);
        let before = tokens.take(2 * pairs - 1);
        let with_op = tokens.take(2 * pairs as int);
        let with_both = tokens.take(2 * pairs as int + 1);
        assert(with_op.drop_last() =~= before);
        assert(with_both.drop_last() =~= with_op);
        let op_token = tokens[2 * pairs - 1];
        let number_token = tokens[2 * pairs as int];
        assert(op_token is Op && operator(op_token->Op_0));
        assert(number_token is Number);
        assert(with_op.last() == op_token);
        assert(with_both.last() == number_token);
        let op = op_token->Op_0;
        let n = number_token->Number_0;
        let yard = shunted(before);
        let forming = formed(tokens, (pairs - 1) as nat);
        lemma_drained(yard, forming, op);
        let after = drained(yard, op);
        let waiting = (after.0, after.1.push(op));
        assert(shunted(with_op) == waiting);
        let last = (waiting.0.push(number_token), waiting.1);
        assert(shunted(with_both) == last);
        lemma_work_push(after.0, number_token);
        match worked_off(after.0) {
            Ok(values) => {
                let more = values.push(n);
                if binding(op) == 2 {
                    if after.1.len() == 0 {
                        assert(last.1 =~= seq![op]);
                    } else {
                        assert(last.1 =~= seq![after.1[0], op]);
                    }
                } else {
                    assert(last.1 =~= seq![op]);
                }
            },
            Err(_) => {},
        }
    }
}

/// Letting all waiting operators out settles the sum.
proof fn lemma_flushed(yard: Yard, forming: Option<Forming>)
    requires
        stands_for(yard, forming),
    ensures
        rpn_value(flushed(yard)) == match forming {
            Some(f) => match settled(f) {
                Some(value) => Ok::<u128, ExprError>(value),
                None => Err(ExprError::Arithmetic),
            },
            None => Err(ExprError::Arithmetic),
        },
    decreases yard.1.len(),
{
    if yard.1.len() > 0 {
        let out = (yard.0.push(Token::Op(yard.1.last())), yard.1.drop_last());
        lemma_let_out(yard, forming);
        assert(operator(yard.1[yard.1.len() - 1]));
        if yard.1.len() == 2 || binding(yard.1[0]) == 2 {
            lemma_flushed(out, forming);
        } else {
            let settled_sum: Option<Forming> = match forming {
                Some(f) => match settled(f) {
                    Some(sum) => Some((None, sum)),
                    None => None,
                },
                None => None,
            };
            lemma_flushed(out, settled_sum);
        }
    } else {
        match worked_off(yard.0) {
            Ok(values) => {},
            Err(_) => {},
        }
    }
}

/// For numbers with one operator between each two, evaluating the postfix
/// form gives the value as it is taught: `*` and `/` before `+` and `-`,
/// and from left to right among equals.
pub proof fn lemma_postfix_value(tokens: Seq<Token>)
    requires
        well_formed(tokens),
    ensures
        rpn_value(rpn_of(tokens)) == infix_value(tokens),
{
    let pairs = ((tokens.len() - 1) / 2) as nat;
    lemma_yard_stands(tokens, pairs);
    assert(tokens.take(2 * pairs as int + 1) =~= tokens);
    lemma_flushed(shunted(tokens), formed(tokens, pairs));
}

/// An expression that is numbers with one operator between each two has
/// the value as it is taught; any other expression that can be split into
/// tokens is empty or ends with an operator.
pub proof fn lemma_expression_value(expr: Seq<char>)
    ensures
        match tokens_of(expr) {
            Ok(tokens) => alternating(tokens) && (tokens.len() % 2 == 1 ==> value_of(expr)
                == infix_value(tokens)),
            Err(error) => value_of(expr) == Err::<u128, ExprError>(error),
        },
{
    lemma_tokens_alternate(expr);
    if tokens_of(expr) is Ok {
        let tokens = tokens_of(expr)->Ok_0;
        if tokens.len() % 2 == 1 {
            lemma_postfix_value(tokens);
        }
    }
}

} // verus!
