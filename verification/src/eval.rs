//! Evaluation of a postfix token sequence on a stack of signed 32-bit
//! values.
//!
//! An operand pushes its value. Unary negation pops one value and pushes
//! its negation. A binary operator pops the right operand `a` first and the
//! left operand `b` second, and pushes `b op a`. Arithmetic wraps in 32-bit
//! two's complement; division truncates toward zero and fails when the
//! right operand is zero. Evaluation succeeds when exactly one value is
//! left on the stack.

use vstd::arithmetic::div_mod::{
    lemma_div_basics, lemma_div_is_ordered_by_denominator, lemma_div_multiples_vanish,
    lemma_div_nonincreasing, lemma_div_pos_is_pos,
};
use vstd::prelude::*;
use vstd::wrapping::i32_specs;

use crate::token::{EvalError, Operator, Token};

verus! {

/// The negation of `a` in wrapping 32-bit arithmetic (the negation of
/// `i32::MIN` is `i32::MIN` itself).
pub open spec fn wrap_neg(a: i32) -> i32 {
    i32_specs::wrapping_sub(0, a)
}

/// The quotient of `x` and `d` truncated toward zero, stated over the
/// non-negative Euclidean quotient of the magnitudes.
pub open spec fn div_trunc(x: int, d: int) -> int
    recommends
        d != 0,
{
    if x == 0 {
        0
    } else if x > 0 && d > 0 {
        x / d
    } else if x < 0 && d < 0 {
        (x * -1) / (d * -1)
    } else if x < 0 {
        ((x * -1) / d) * -1
    } else {
        (x / (d * -1)) * -1
    }
}

/// The truncating 32-bit division of `b` by `a`: the one overflowing case,
/// `i32::MIN / -1`, wraps back to `i32::MIN`.
pub open spec fn wrap_div(b: i32, a: i32) -> i32
    recommends
        a != 0,
{
    if b == i32::MIN && a == -1 {
        i32::MIN
    } else {
        div_trunc(b as int, a as int) as i32
    }
}

/// Outside the one wrapping case, the truncated quotient fits in an `i32`.
proof fn lemma_div_trunc_fits(b: i32, a: i32)
    requires
        a != 0,
        !(b == i32::MIN && a == -1),
    ensures
        i32::MIN <= div_trunc(b as int, a as int) <= i32::MAX,
{
    let x = b as int;
    let d = a as int;
    if x == 0 {
    } else if x > 0 && d > 0 {
        lemma_div_pos_is_pos(x, d);
        lemma_div_nonincreasing(x, d);
    } else if x < 0 && d < 0 {
        let q = (x * -1) / (d * -1);
        lemma_div_pos_is_pos(x * -1, d * -1);
        lemma_div_nonincreasing(x * -1, d * -1);
        if b == i32::MIN {
            // The divisor magnitude is at least 2 here, since a == -1 is
            // excluded, so the quotient is at most half the magnitude.
            assert(d * -1 >= 2);
            lemma_div_is_ordered_by_denominator(x * -1, 2, d * -1);
            lemma_div_multiples_vanish(0x4000_0000, 2);
            assert(x * -1 == 0x8000_0000);
            assert((x * -1) / 2 == 0x4000_0000);
        }
    } else if x < 0 {
        lemma_div_pos_is_pos(x * -1, d);
        lemma_div_nonincreasing(x * -1, d);
    } else {
        lemma_div_pos_is_pos(x, d * -1);
        lemma_div_nonincreasing(x, d * -1);
    }
}

/// How one token transforms the value stack, or why it cannot.
pub open spec fn spec_eval_one(t: Token, stack: Seq<i32>) -> Result<Seq<i32>, EvalError> {
    match t {
        Token::Operand(v) => Ok(stack.push(v)),
        Token::Operator(op) => match op {
            Operator::Negate => if stack.len() < 1 {
                Err(EvalError::StackUnderflow)
            } else {
                Ok(stack.drop_last().push(wrap_neg(stack.last())))
            },
            _ => if stack.len() < 2 {
                Err(EvalError::StackUnderflow)
            } else {
                let a = stack.last();
                let b = stack[stack.len() - 2];
                let rest = stack.drop_last().drop_last();
                match op {
                    Operator::Add => Ok(rest.push(i32_specs::wrapping_add(b, a))),
                    Operator::Subtract => Ok(rest.push(i32_specs::wrapping_sub(b, a))),
                    Operator::Multiply => Ok(rest.push(i32_specs::wrapping_mul(b, a))),
                    _ => if a == 0 {
                        Err(EvalError::DivisionByZero)
                    } else {
                        Ok(rest.push(wrap_div(b, a)))
                    },
                }
            },
        },
        _ => Err(EvalError::InvalidToken),
    }
}

/// The value stack after consuming `tokens` from `stack`, or the first
/// failure.
pub open spec fn spec_eval_seq(tokens: Seq<Token>, stack: Seq<i32>) -> Result<Seq<i32>, EvalError>
    decreases tokens.len(),
{
    if tokens.len() == 0 {
        Ok(stack)
    } else {
        match spec_eval_one(tokens[0], stack) {
            Ok(s) => spec_eval_seq(tokens.skip(1), s),
            Err(e) => Err(e),
        }
    }
}

/// The value of the postfix token sequence `tokens`: the single value left
/// on the stack after consuming every token, starting from an empty stack.
/// A final stack of any other size is a malformed expression.
pub open spec fn spec_evaluate_postfix(tokens: Seq<Token>) -> Result<i32, EvalError> {
    match spec_eval_seq(tokens, Seq::empty()) {
        Ok(stack) => if stack.len() == 1 {
            Ok(stack[0])
        } else {
            Err(EvalError::MalformedExpression)
        },
        Err(e) => Err(e),
    }
}

/// Evaluates the postfix token sequence `expression` on a value stack.
/// Arithmetic wraps in 32-bit two's complement; division truncates toward
/// zero. Fails on a division by zero, on an operator short of operands, on
/// a parenthesis left in postfix form, and on a final stack that does not
/// hold exactly one value.
pub fn evaluate_postfix(expression: Vec<Token>) -> (r: Result<i32, EvalError>)
    ensures
        r == spec_evaluate_postfix(expression@),
{
    let n = expression.len();
    let mut stack: Vec<i32> = Vec::new();
    proof {
        assert(expression@.skip(0) =~= expression@);
    }
    let mut i: usize = 0;
    while i < n
        invariant
            0 <= i <= n == expression@.len(),
            spec_eval_seq(expression@, Seq::empty()) == spec_eval_seq(
                expression@.skip(i as int),
                stack@,
            ),
        decreases n - i,
    {
        let ghost rest = expression@.skip(i as int);
        proof {
            assert(rest[0] == expression@[i as int]);
            assert(rest.skip(1) =~= expression@.skip(i as int + 1));
        }
        let t = expression[i];
        match t {
            Token::Operand(num) => {
                stack.push(num);
            },
            Token::Operator(operator) => {
                match operator {
                    Operator::Negate => {
                        let ghost st0 = stack@;
                        let a = match stack.pop() {
                            Some(x) => x,
                            None => {
                                return Err(EvalError::StackUnderflow);
                            },
                        };
                        stack.push(0i32.wrapping_sub(a));
                        proof {
                            assert(stack@ =~= st0.drop_last().push(wrap_neg(st0.last())));
                        }
                    },
                    _ => {
                        let ghost st0 = stack@;
                        let a = match stack.pop() {
                            Some(x) => x,
                            None => {
                                return Err(EvalError::StackUnderflow);
                            },
                        };
                        let b = match stack.pop() {
                            Some(x) => x,
                            None => {
                                return Err(EvalError::StackUnderflow);
                            },
                        };
                        proof {
                            assert(a == st0.last());
                            assert(b == st0[st0.len() - 2]);
                            assert(stack@ =~= st0.drop_last().drop_last());
                        }
                        let result: i32 = match operator {
                            Operator::Add => b.wrapping_add(a),
                            Operator::Subtract => b.wrapping_sub(a),
                            Operator::Multiply => b.wrapping_mul(a),
                            _ => {
                                if a == 0 {
                                    return Err(EvalError::DivisionByZero);
                                }
                                match b.checked_div(a) {
                                    Some(q) => {
                                        proof {
                                            if b == i32::MIN && a == -1 {
                                                lemma_div_basics(0x8000_0000 as int);
                                                assert(false);
                                            }
                                            assert(q == wrap_div(b, a));
                                        }
                                        q
                                    },
                                    None => {
                                        proof {
                                            if !(b == i32::MIN && a == -1) {
                                                lemma_div_trunc_fits(b, a);
                                            }
                                            assert(b == i32::MIN && a == -1);
                                        }
                                        i32::MIN
                                    },
                                }
                            },
                        };
                        stack.push(result);
                    },
                }
            },
            _ => {
                return Err(EvalError::InvalidToken);
            },
        }
        i = i + 1;
    }
    proof {
        assert(expression@.skip(n as int) =~= Seq::<Token>::empty());
    }
    if stack.len() != 1 {
        return Err(EvalError::MalformedExpression);
    }
    match stack.pop() {
        Some(v) => Ok(v),
        None => {
            proof {
                assert(false);
            }
            Err(EvalError::MalformedExpression)
        },
    }
}

} // verus!
