//! The token alphabet of the expression language, and the operator
//! precedence table used by the infix-to-postfix conversion.

use vstd::prelude::*;

verus! {

/// An operator token. `Subtract` is the binary infix minus; `Negate` is the
/// unary prefix minus. The tokenizer commits to one of the two readings of
/// `-` from the grammatical position, so the later stages never have to.
#[derive(Clone, Copy, Debug, PartialEq, Eq, Structural)]
pub enum Operator {
    Multiply,
    Divide,
    Add,
    Subtract,
    Negate,
}

/// One token of an expression: a parsed binary literal, an operator, or a
/// structural parenthesis marker.
///
/// Operand values are non-negative at construction (they are parsed from
/// unsigned digit runs); negative values arise only through `Negate` or
/// `Subtract` during evaluation.
#[derive(Clone, Copy, Debug, PartialEq, Eq, Structural)]
pub enum Token {
    Operand(i32),
    Operator(Operator),
    LeftParenthesis,
    RightParenthesis,
}

/// Why an expression was rejected. All variants collapse to one generic
/// message for the end user, but the stages report distinct causes.
#[derive(Clone, Copy, Debug, PartialEq, Eq, Structural)]
pub enum EvalError {
    /// A character outside the allowed alphabet occurred in the raw input.
    InvalidCharacter,
    /// The tokenizer met a symbol it cannot classify.
    InvalidToken,
    /// A digit run could not be parsed as a base-2 integer (an empty run, or
    /// a value that does not fit in 32 bits).
    NumberParseError,
    /// An unmatched `(` or `)` was found during infix-to-postfix conversion.
    ParenthesisMismatch,
    /// An operator in postfix form had fewer operands available than it needs.
    StackUnderflow,
    /// The right-hand operand of a division was zero.
    DivisionByZero,
    /// Postfix evaluation ended with a value-stack size other than one.
    MalformedExpression,
}

/// The precedence rank of `op`: higher binds tighter.
pub open spec fn spec_precedence(op: Operator) -> u8 {
    match op {
        Operator::Negate => 2,
        Operator::Multiply => 1,
        Operator::Divide => 1,
        Operator::Add => 0,
        Operator::Subtract => 0,
    }
}

/// Returns the precedence rank of `operator`: unary negation above the
/// multiplicative operators, which stand above the additive ones.
pub fn precedence(operator: &Operator) -> (r: u8)
    ensures
        r == spec_precedence(*operator),
{
    match operator {
        Operator::Negate => 2,
        Operator::Multiply => 1,
        Operator::Divide => 1,
        Operator::Add => 0,
        Operator::Subtract => 0,
    }
}

} // verus!
