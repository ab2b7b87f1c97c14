use rats::basejump::ExprError;
use rats::expression::{
    apply, eval_rpn, evaluate_expression, is_white_space, to_rpn, tokenize, Token,
};

fn num(n: u128) -> Token {
    Token::Number(n)
}

fn op(c: char) -> Token {
    Token::Op(c)
}

#[test]
fn expressions_are_split_into_tokens() {
    assert_eq!(tokenize("10+5"), Ok(vec![num(10), op('+'), num(5)]));
    assert_eq!(tokenize(" 2 * 3 "), Ok(vec![num(2), op('*'), num(3)]));
    assert_eq!(tokenize("42"), Ok(vec![num(42)]));
    assert_eq!(tokenize(""), Ok(vec![]));
    assert_eq!(tokenize("   "), Ok(vec![]));
    assert_eq!(tokenize("5+"), Ok(vec![num(5), op('+')]));
    assert_eq!(tokenize("1 2"), Ok(vec![num(12)]));
    assert_eq!(tokenize("007"), Ok(vec![num(7)]));
    assert_eq!(
        tokenize("340282366920938463463374607431768211455"),
        Ok(vec![num(u128::MAX)])
    );
}

#[test]
fn expressions_that_cannot_be_split_are_rejected() {
    assert_eq!(tokenize("+5"), Err(ExprError::InvalidExpression));
    assert_eq!(tokenize("5++3"), Err(ExprError::InvalidExpression));
    assert_eq!(tokenize("5+-3"), Err(ExprError::InvalidExpression));
    assert_eq!(tokenize("5 + x"), Err(ExprError::InvalidCharacter));
    assert_eq!(tokenize("(5)"), Err(ExprError::InvalidCharacter));
    assert_eq!(tokenize("2a"), Err(ExprError::InvalidCharacter));
    assert_eq!(
        tokenize("340282366920938463463374607431768211456"),
        Err(ExprError::Overflow)
    );
    assert_eq!(
        tokenize("340282366920938463463374607431768211456+1"),
        Err(ExprError::Overflow)
    );
    // A character that is not allowed is met before the number is closed.
    assert_eq!(
        tokenize("340282366920938463463374607431768211456x"),
        Err(ExprError::InvalidCharacter)
    );
}

#[test]
fn white_space_is_what_unicode_calls_so() {
    let spaces =
        [' ', '\t', '\n', '\r', '\u{0B}', '\u{0C}', '\u{85}', '\u{A0}', '\u{2003}', '\u{3000}'];
    for c in spaces {
        assert!(is_white_space(c));
        assert!(c.is_whitespace());
    }
    for c in ['a', '0', '_', '\u{200B}', '\u{0}'] {
        assert!(!is_white_space(c));
        assert!(!c.is_whitespace());
    }
    for code in 0..0x3100u32 {
        if let Some(c) = char::from_u32(code) {
            assert_eq!(is_white_space(c), c.is_whitespace());
        }
    }
}

#[test]
fn tokens_are_reordered_into_postfix_form() {
    assert_eq!(to_rpn(vec![]), Ok(vec![]));
    assert_eq!(to_rpn(vec![num(1)]), Ok(vec![num(1)]));
    assert_eq!(
        to_rpn(vec![num(2), op('+'), num(3), op('*'), num(4)]),
        Ok(vec![num(2), num(3), num(4), op('*'), op('+')])
    );
    assert_eq!(
        to_rpn(vec![num(2), op('*'), num(3), op('+'), num(4)]),
        Ok(vec![num(2), num(3), op('*'), num(4), op('+')])
    );
    assert_eq!(
        to_rpn(vec![num(8), op('-'), num(3), op('-'), num(2)]),
        Ok(vec![num(8), num(3), op('-'), num(2), op('-')])
    );
    assert_eq!(
        to_rpn(vec![num(1), op('+'), num(2), op('*'), num(3), op('-'), num(4)]),
        Ok(vec![num(1), num(2), num(3), op('*'), op('+'), num(4), op('-')])
    );
}

#[test]
fn postfix_tokens_are_evaluated() {
    assert_eq!(eval_rpn(&vec![num(7)]), Ok(7));
    assert_eq!(eval_rpn(&vec![num(2), num(3), num(4), op('*'), op('+')]), Ok(14));
    assert_eq!(eval_rpn(&vec![num(10), num(5), op('-')]), Ok(5));
    assert_eq!(eval_rpn(&vec![num(10), num(4), op('/')]), Ok(2));
}

#[test]
fn postfix_tokens_that_do_not_add_up_are_rejected() {
    assert_eq!(eval_rpn(&vec![]), Err(ExprError::InvalidExpression));
    assert_eq!(eval_rpn(&vec![num(1), num(2)]), Err(ExprError::InvalidExpression));
    assert_eq!(eval_rpn(&vec![num(1), op('+')]), Err(ExprError::InvalidExpression));
    assert_eq!(eval_rpn(&vec![op('+')]), Err(ExprError::InvalidExpression));
    assert_eq!(eval_rpn(&vec![num(5), num(10), op('-')]), Err(ExprError::Arithmetic));
    assert_eq!(eval_rpn(&vec![num(5), num(0), op('/')]), Err(ExprError::Arithmetic));
    assert_eq!(eval_rpn(&vec![num(u128::MAX), num(1), op('+')]), Err(ExprError::Arithmetic));
    assert_eq!(eval_rpn(&vec![num(u128::MAX), num(2), op('*')]), Err(ExprError::Arithmetic));
    assert_eq!(eval_rpn(&vec![num(1), num(2), op('^')]), Err(ExprError::Arithmetic));
}

#[test]
fn operators_are_applied_with_checks() {
    assert_eq!(apply('+', 2, 3), Some(5));
    assert_eq!(apply('-', 3, 2), Some(1));
    assert_eq!(apply('-', 2, 3), None);
    assert_eq!(apply('*', 4, 5), Some(20));
    assert_eq!(apply('/', 7, 2), Some(3));
    assert_eq!(apply('/', 7, 0), None);
    assert_eq!(apply('+', u128::MAX, 1), None);
    assert_eq!(apply('*', u128::MAX, 2), None);
    assert_eq!(apply('%', 7, 2), None);
}

#[test]
fn sums_differences_products_and_quotients() {
    assert_eq!(evaluate_expression("10+5"), Ok(15));
    assert_eq!(evaluate_expression("10-5"), Ok(5));
    assert_eq!(evaluate_expression("10*5"), Ok(50));
    assert_eq!(evaluate_expression("10/5"), Ok(2));
}

#[test]
fn products_come_before_sums() {
    assert_eq!(evaluate_expression("2+3*4"), Ok(14));
    assert_eq!(evaluate_expression("2*3+4"), Ok(10));
    assert_eq!(evaluate_expression("10-5/5"), Ok(9));
}

#[test]
fn a_number_alone_is_its_value() {
    assert_eq!(evaluate_expression("42"), Ok(42));
    assert_eq!(evaluate_expression("123456789"), Ok(123456789));
}

#[test]
fn incomplete_expressions_have_no_value() {
    assert!(evaluate_expression("5+").is_err());
    assert!(evaluate_expression("+5").is_err());
    assert!(evaluate_expression("5++3").is_err());
    assert_eq!(evaluate_expression(""), Err(ExprError::InvalidExpression));
}

#[test]
fn a_divisor_of_zero_has_no_value() {
    assert_eq!(evaluate_expression("10/0"), Err(ExprError::Arithmetic));
}

#[test]
fn a_sum_beyond_128_bits_has_no_value() {
    assert_eq!(
        evaluate_expression("340282366920938463463374607431768211455+1"),
        Err(ExprError::Arithmetic)
    );
}

#[test]
fn a_negative_difference_has_no_value() {
    assert_eq!(evaluate_expression("5-10"), Err(ExprError::Arithmetic));
}

#[test]
fn operators_in_a_row_have_no_value() {
    for expr in ["5++3", "5--3", "5**3", "5//3", "5+-3", "5-+3", "5*+3", "5/-3"] {
        assert!(evaluate_expression(expr).is_err());
    }
}

#[test]
fn several_expressions_are_evaluated() {
    assert_eq!(evaluate_expression("10+5"), Ok(15));
    assert_eq!(evaluate_expression("20-3"), Ok(17));
    assert_eq!(evaluate_expression("4*6"), Ok(24));
}

#[test]
fn evaluation_goes_from_left_to_right_within_a_level() {
    assert_eq!(evaluate_expression("8-3-2"), Ok(3));
    assert_eq!(evaluate_expression("100/10/5"), Ok(2));
    assert_eq!(evaluate_expression("2*3*4+5*6-7"), Ok(47));
    assert_eq!(evaluate_expression("1+2*3-4/2"), Ok(5));
    // An early fault in arithmetic is met before a missing operand.
    assert_eq!(evaluate_expression("0-1+"), Err(ExprError::Arithmetic));
    assert_eq!(evaluate_expression("1+2*"), Err(ExprError::InvalidExpression));
}
