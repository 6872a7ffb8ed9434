use bincalc::evaluate_expression;
use bincalc::token::EvalError;

fn words(xs: &[&str]) -> Vec<String> {
    xs.iter().map(|s| s.to_string()).collect()
}

#[test]
fn single_operand() {
    assert_eq!(evaluate_expression(&words(&["1010"])), Ok(10));
}

#[test]
fn redundant_parens_whole() {
    let plain = evaluate_expression(&words(&["1+10"]));
    let wrapped = evaluate_expression(&words(&["(1+10)"]));
    let doubly = evaluate_expression(&words(&["((1+10))"]));
    assert_eq!(plain, Ok(3));
    assert_eq!(wrapped, plain);
    assert_eq!(doubly, plain);
}

#[test]
fn redundant_paren_words_around_the_input() {
    let plain = evaluate_expression(&words(&["1", "+", "10"]));
    let wrapped = evaluate_expression(&words(&["(", "1", "+", "10", ")"]));
    assert_eq!(plain, Ok(3));
    assert_eq!(wrapped, plain);
}

#[test]
fn redundant_parens_subexpression() {
    let plain = evaluate_expression(&words(&["1+10*11"]));
    let inner = evaluate_expression(&words(&["1+(10*11)"]));
    let doubled = evaluate_expression(&words(&["1+((10*11))"]));
    assert_eq!(plain, Ok(7));
    assert_eq!(inner, plain);
    assert_eq!(doubled, plain);
}

#[test]
fn subtraction_is_left_associative() {
    let chain = evaluate_expression(&words(&["1", "-", "1", "-", "1"]));
    let left = evaluate_expression(&words(&["(1-1)-1"]));
    let right = evaluate_expression(&words(&["1-(1-1)"]));
    assert_eq!(chain, Ok(-1));
    assert_eq!(left, Ok(-1));
    assert_eq!(right, Ok(1));
    assert_ne!(chain, right);
}

#[test]
fn multiplication_binds_tighter_than_addition() {
    assert_eq!(evaluate_expression(&words(&["1", "+", "1", "*", "10"])), Ok(3));
    assert_eq!(evaluate_expression(&words(&["1+1*10"])), Ok(3));
}

#[test]
fn leading_minus_is_negation() {
    assert_eq!(evaluate_expression(&words(&["-1"])), Ok(-1));
}

#[test]
fn infix_minus_is_subtraction() {
    assert_eq!(evaluate_expression(&words(&["1", "-", "1"])), Ok(0));
}

#[test]
fn minus_then_minus_is_subtracting_a_negation() {
    assert_eq!(evaluate_expression(&words(&["1", "-", "-", "1"])), Ok(2));
}

#[test]
fn unmatched_open_paren_fails() {
    assert_eq!(
        evaluate_expression(&words(&["(1"])),
        Err(EvalError::ParenthesisMismatch)
    );
}

#[test]
fn unmatched_close_paren_fails() {
    assert_eq!(
        evaluate_expression(&words(&["1)"])),
        Err(EvalError::ParenthesisMismatch)
    );
}

#[test]
fn reversed_parens_fail() {
    assert_eq!(
        evaluate_expression(&words(&[")("])),
        Err(EvalError::ParenthesisMismatch)
    );
}

#[test]
fn division_by_zero_fails() {
    assert_eq!(
        evaluate_expression(&words(&["10/0"])),
        Err(EvalError::DivisionByZero)
    );
}

#[test]
fn zero_dividend_succeeds() {
    assert_eq!(evaluate_expression(&words(&["0/10"])), Ok(0));
}

#[test]
fn bare_operator_underflows() {
    assert_eq!(
        evaluate_expression(&words(&["+"])),
        Err(EvalError::StackUnderflow)
    );
}

#[test]
fn empty_word_list_is_malformed() {
    assert_eq!(
        evaluate_expression(&words(&[])),
        Err(EvalError::MalformedExpression)
    );
}

#[test]
fn two_operands_without_operator_are_malformed() {
    assert_eq!(
        evaluate_expression(&words(&["1", "1"])),
        Err(EvalError::MalformedExpression)
    );
}

#[test]
fn decimal_digit_is_rejected() {
    assert_eq!(
        evaluate_expression(&words(&["1", "2"])),
        Err(EvalError::InvalidCharacter)
    );
}

#[test]
fn letter_is_rejected() {
    assert_eq!(
        evaluate_expression(&words(&["a+1"])),
        Err(EvalError::InvalidCharacter)
    );
}

#[test]
fn overlong_numeral_fails_to_parse() {
    // Thirty-two ones exceed i32::MAX.
    assert_eq!(
        evaluate_expression(&words(&["11111111111111111111111111111111"])),
        Err(EvalError::NumberParseError)
    );
}

#[test]
fn leading_zeros_do_not_overflow() {
    // Thirty-eight digits, but the value is 1.
    assert_eq!(
        evaluate_expression(&words(&["00000000000000000000000000000000000001"])),
        Ok(1)
    );
}

#[test]
fn empty_word_contributes_no_tokens() {
    assert_eq!(
        evaluate_expression(&words(&[""])),
        Err(EvalError::MalformedExpression)
    );
}

#[test]
fn addition_wraps_at_the_32_bit_boundary() {
    // i32::MAX, written as thirty-one ones, plus one wraps to i32::MIN.
    assert_eq!(
        evaluate_expression(&words(&["1111111111111111111111111111111", "+", "1"])),
        Ok(i32::MIN)
    );
}

#[test]
fn division_truncates_toward_zero() {
    // -7 / 2 is -3 under truncation, not -4.
    assert_eq!(evaluate_expression(&words(&["-111/10"])), Ok(-3));
}

#[test]
fn nested_expression() {
    // (1 + 2) * 2 - 6 / 2 = 3.
    assert_eq!(
        evaluate_expression(&words(&["(1+10)*10-110/10"])),
        Ok(3)
    );
}
