use bincalc::token::{EvalError, Operator, Token};
use bincalc::{
    evaluate_postfix, infix_to_postfix, is_binary, precedence, split_string, split_strings,
    tokenize, validate_chars,
};

fn words(xs: &[&str]) -> Vec<String> {
    xs.iter().map(|s| s.to_string()).collect()
}

#[test]
fn validate_accepts_the_alphabet() {
    assert!(validate_chars(&words(&["(10+1)*-1/0"])));
}

#[test]
fn validate_rejects_a_stray_character() {
    assert!(!validate_chars(&words(&["10", "x"])));
    assert!(!validate_chars(&words(&["1 0"])));
}

#[test]
fn is_binary_accepts_digit_runs() {
    assert!(is_binary("1010"));
    assert!(is_binary(""));
    assert!(!is_binary("12"));
    assert!(!is_binary("+"));
}

#[test]
fn split_separates_runs_and_punctuation() {
    assert_eq!(split_string("(1001+"), words(&["(", "1001", "+"]));
}

#[test]
fn split_of_empty_word_is_empty() {
    assert_eq!(split_string(""), words(&[]));
}

#[test]
fn split_of_atom_is_identity() {
    assert_eq!(split_string("+"), words(&["+"]));
    assert_eq!(split_string("("), words(&["("]));
    assert_eq!(split_string("1"), words(&["1"]));
}

#[test]
fn split_strings_concatenates_in_order() {
    assert_eq!(
        split_strings(&words(&["(1001+", "1)"])),
        words(&["(", "1001", "+", "1", ")"])
    );
}

#[test]
fn tokenize_parses_binary_operands() {
    assert_eq!(
        tokenize(&words(&["0", "1", "10", "1010"])),
        Ok(vec![
            Token::Operand(0),
            Token::Operand(1),
            Token::Operand(2),
            Token::Operand(10),
        ])
    );
}

#[test]
fn tokenize_disambiguates_minus() {
    assert_eq!(
        tokenize(&words(&["-", "1", "-", "-", "1"])),
        Ok(vec![
            Token::Operator(Operator::Negate),
            Token::Operand(1),
            Token::Operator(Operator::Subtract),
            Token::Operator(Operator::Negate),
            Token::Operand(1),
        ])
    );
}

#[test]
fn tokenize_classifies_punctuation() {
    assert_eq!(
        tokenize(&words(&["(", ")", "*", "/", "+"])),
        Ok(vec![
            Token::LeftParenthesis,
            Token::RightParenthesis,
            Token::Operator(Operator::Multiply),
            Token::Operator(Operator::Divide),
            Token::Operator(Operator::Add),
        ])
    );
}

#[test]
fn tokenize_rejects_unknown_symbol() {
    assert_eq!(tokenize(&words(&["+-"])), Err(EvalError::InvalidToken));
}

#[test]
fn tokenize_rejects_empty_digit_run() {
    assert_eq!(tokenize(&words(&[""])), Err(EvalError::NumberParseError));
}

#[test]
fn tokenize_rejects_oversized_digit_run() {
    assert_eq!(
        tokenize(&words(&["100000000000000000000000000000000"])),
        Err(EvalError::NumberParseError)
    );
}

#[test]
fn precedence_orders_the_operators() {
    assert_eq!(precedence(&Operator::Negate), 2);
    assert_eq!(precedence(&Operator::Multiply), 1);
    assert_eq!(precedence(&Operator::Divide), 1);
    assert_eq!(precedence(&Operator::Add), 0);
    assert_eq!(precedence(&Operator::Subtract), 0);
}

#[test]
fn conversion_orders_by_precedence() {
    // 1 + 1 * 10 becomes 1 1 10 * +.
    assert_eq!(
        infix_to_postfix(vec![
            Token::Operand(1),
            Token::Operator(Operator::Add),
            Token::Operand(1),
            Token::Operator(Operator::Multiply),
            Token::Operand(2),
        ]),
        Ok(vec![
            Token::Operand(1),
            Token::Operand(1),
            Token::Operand(2),
            Token::Operator(Operator::Multiply),
            Token::Operator(Operator::Add),
        ])
    );
}

#[test]
fn conversion_discards_matched_parens() {
    // (1 + 1) * 10 becomes 1 1 + 10 *.
    assert_eq!(
        infix_to_postfix(vec![
            Token::LeftParenthesis,
            Token::Operand(1),
            Token::Operator(Operator::Add),
            Token::Operand(1),
            Token::RightParenthesis,
            Token::Operator(Operator::Multiply),
            Token::Operand(2),
        ]),
        Ok(vec![
            Token::Operand(1),
            Token::Operand(1),
            Token::Operator(Operator::Add),
            Token::Operand(2),
            Token::Operator(Operator::Multiply),
        ])
    );
}

#[test]
fn conversion_rejects_unmatched_open_paren() {
    assert_eq!(
        infix_to_postfix(vec![Token::LeftParenthesis, Token::Operand(1)]),
        Err(EvalError::ParenthesisMismatch)
    );
}

#[test]
fn evaluation_applies_operands_in_stack_order() {
    // 1 10 - is 1 - 2.
    assert_eq!(
        evaluate_postfix(vec![
            Token::Operand(1),
            Token::Operand(2),
            Token::Operator(Operator::Subtract),
        ]),
        Ok(-1)
    );
}

#[test]
fn evaluation_rejects_parenthesis_tokens() {
    assert_eq!(
        evaluate_postfix(vec![Token::Operand(1), Token::LeftParenthesis]),
        Err(EvalError::InvalidToken)
    );
}

#[test]
fn evaluation_underflows_on_missing_operands() {
    assert_eq!(
        evaluate_postfix(vec![Token::Operator(Operator::Negate)]),
        Err(EvalError::StackUnderflow)
    );
    assert_eq!(
        evaluate_postfix(vec![Token::Operand(1), Token::Operator(Operator::Add)]),
        Err(EvalError::StackUnderflow)
    );
}

#[test]
fn evaluation_wraps_the_overflowing_division() {
    assert_eq!(
        evaluate_postfix(vec![
            Token::Operand(i32::MIN),
            Token::Operand(-1),
            Token::Operator(Operator::Divide),
        ]),
        Ok(i32::MIN)
    );
}

#[test]
fn evaluation_wraps_multiplication() {
    // i32::MIN times two wraps to zero.
    assert_eq!(
        evaluate_postfix(vec![
            Token::Operand(i32::MIN),
            Token::Operand(2),
            Token::Operator(Operator::Multiply),
        ]),
        Ok(0)
    );
}

#[test]
fn negation_wraps_at_the_minimum() {
    assert_eq!(
        evaluate_postfix(vec![Token::Operand(i32::MIN), Token::Operator(Operator::Negate)]),
        Ok(i32::MIN)
    );
}
