//! Infix-to-postfix conversion with the shunting-yard algorithm.
//!
//! Tokens are read left to right. Operands go straight to the output; an
//! operator first pops every stacked operator of greater or equal precedence
//! (the left-associative rule), then goes on the stack; a right parenthesis
//! pops down to the matching left parenthesis and discards the pair. At the
//! end an unmatched `(` anywhere on the stack is a mismatch; otherwise the
//! remaining operators are popped, top first, onto the output.

use vstd::prelude::*;

use crate::lexer::tokens_match;
use crate::token::{spec_precedence, precedence, EvalError, Operator, Token};

verus! {

/// Whether every stacked token is an operator or a left parenthesis: the
/// invariant of the shunting-yard operator stack.
pub open spec fn ops_wf(ops: Seq<Token>) -> bool {
    forall|k: int|
        0 <= k < ops.len() ==> (#[trigger] ops[k] matches Token::Operator(_) || ops[k]
            == Token::LeftParenthesis)
}

/// Pops every operator of precedence at least `p` from the top of `ops`,
/// stopping at a left parenthesis, a lower-precedence operator, or the
/// bottom. Yields the remaining stack and the popped tokens in pop order.
pub open spec fn spec_pop_ge(ops: Seq<Token>, p: u8) -> (Seq<Token>, Seq<Token>)
    decreases ops.len(),
{
    if ops.len() == 0 {
        (ops, Seq::empty())
    } else {
        match ops.last() {
            Token::Operator(top) => if spec_precedence(top) >= p {
                let r = spec_pop_ge(ops.drop_last(), p);
                (r.0, seq![ops.last()] + r.1)
            } else {
                (ops, Seq::empty())
            },
            _ => (ops, Seq::empty()),
        }
    }
}

/// Pops down to the nearest left parenthesis, which is discarded. Yields
/// the stack below the parenthesis and the popped tokens in pop order, or
/// a mismatch when no left parenthesis is on the stack.
pub open spec fn spec_pop_to_lparen(ops: Seq<Token>) -> Result<
    (Seq<Token>, Seq<Token>),
    EvalError,
>
    decreases ops.len(),
{
    if ops.len() == 0 {
        Err(EvalError::ParenthesisMismatch)
    } else if ops.last() == Token::LeftParenthesis {
        Ok((ops.drop_last(), Seq::empty()))
    } else {
        match spec_pop_to_lparen(ops.drop_last()) {
            Ok(r) => Ok((r.0, seq![ops.last()] + r.1)),
            Err(e) => Err(e),
        }
    }
}

/// One step of the conversion: how the token `t` transforms the operator
/// stack and the output.
pub open spec fn spec_shunt_step(t: Token, ops: Seq<Token>, out: Seq<Token>) -> Result<
    (Seq<Token>, Seq<Token>),
    EvalError,
> {
    match t {
        Token::Operand(_) => Ok((ops, out.push(t))),
        Token::LeftParenthesis => Ok((ops.push(t), out)),
        Token::Operator(op) => {
            let r = spec_pop_ge(ops, spec_precedence(op));
            Ok((r.0.push(t), out + r.1))
        },
        Token::RightParenthesis => match spec_pop_to_lparen(ops) {
            Ok(r) => Ok((r.0, out + r.1)),
            Err(e) => Err(e),
        },
    }
}

/// The operator stack and output after consuming `tokens` from the state
/// `(ops, out)`, or the first failure.
pub open spec fn spec_shunt(tokens: Seq<Token>, ops: Seq<Token>, out: Seq<Token>) -> Result<
    (Seq<Token>, Seq<Token>),
    EvalError,
>
    decreases tokens.len(),
{
    if tokens.len() == 0 {
        Ok((ops, out))
    } else {
        match spec_shunt_step(tokens[0], ops, out) {
            Ok(r) => spec_shunt(tokens.skip(1), r.0, r.1),
            Err(e) => Err(e),
        }
    }
}

/// Whether a left parenthesis stands anywhere on the stack.
pub open spec fn contains_lparen(ops: Seq<Token>) -> bool {
    exists|k: int| 0 <= k < ops.len() && ops[k] == Token::LeftParenthesis
}

/// The final phase: an unmatched left parenthesis is a mismatch; otherwise
/// the remaining operators are appended to the output, top first.
pub open spec fn spec_finish(ops: Seq<Token>, out: Seq<Token>) -> Result<Seq<Token>, EvalError> {
    if contains_lparen(ops) {
        Err(EvalError::ParenthesisMismatch)
    } else {
        Ok(out + ops.reverse())
    }
}

/// The postfix form of the infix token sequence `tokens`, or the first
/// failure of the conversion.
pub open spec fn spec_infix_to_postfix(tokens: Seq<Token>) -> Result<Seq<Token>, EvalError> {
    match spec_shunt(tokens, Seq::empty(), Seq::empty()) {
        Ok(r) => spec_finish(r.0, r.1),
        Err(e) => Err(e),
    }
}

/// Reorders the infix token sequence `tokens` into postfix (reverse Polish)
/// order with the shunting-yard algorithm; fails with a parenthesis
/// mismatch on an unmatched `(` or `)`.
pub fn infix_to_postfix(tokens: Vec<Token>) -> (r: Result<Vec<Token>, EvalError>)
    ensures
        tokens_match(r, spec_infix_to_postfix(tokens@)),
{
    let n = tokens.len();
    let mut output: Vec<Token> = Vec::new();
    let mut operators: Vec<Token> = Vec::new();
    proof {
        assert(tokens@.skip(0) =~= tokens@);
    }
    let mut i: usize = 0;
    while i < n
        invariant
            0 <= i <= n == tokens@.len(),
            spec_shunt(tokens@, Seq::empty(), Seq::empty()) == spec_shunt(
                tokens@.skip(i as int),
                operators@,
                output@,
            ),
            ops_wf(operators@),
        decreases n - i,
    {
        let ghost rest = tokens@.skip(i as int);
        proof {
            assert(rest[0] == tokens@[i as int]);
            assert(rest.skip(1) =~= tokens@.skip(i as int + 1));
        }
        let t = tokens[i];
        match t {
            Token::Operand(_) => {
                output.push(t);
            },
            Token::LeftParenthesis => {
                operators.push(t);
            },
            Token::Operator(op) => {
                let p = precedence(&op);
                let ghost ops0 = operators@;
                let ghost out0 = output@;
                loop
                    invariant
                        ops_wf(operators@),
                        spec_pop_ge(ops0, p).0 == spec_pop_ge(operators@, p).0,
                        out0 + spec_pop_ge(ops0, p).1 == output@ + spec_pop_ge(
                            operators@,
                            p,
                        ).1,
                    ensures
                        ops_wf(operators@),
                        spec_pop_ge(ops0, p).0 == operators@,
                        output@ == out0 + spec_pop_ge(ops0, p).1,
                    decreases operators@.len(),
                {
                    if operators.is_empty() {
                        proof {
                            assert(output@ + spec_pop_ge(operators@, p).1 =~= output@);
                        }
                        break ;
                    }
                    let top = operators[operators.len() - 1];
                    match top {
                        Token::LeftParenthesis => {
                            proof {
                                assert(operators@.last() == top);
                                assert(output@ + spec_pop_ge(operators@, p).1 =~= output@);
                            }
                            break ;
                        },
                        Token::Operator(top_op) => {
                            if precedence(&top_op) >= p {
                                let ghost ops_before = operators@;
                                let ghost out_before = output@;
                                let popped = match operators.pop() {
                                    Some(x) => x,
                                    None => {
                                        proof {
                                            assert(false);
                                        }
                                        return Err(EvalError::InvalidToken);
                                    },
                                };
                                output.push(popped);
                                proof {
                                    assert(operators@ =~= ops_before.drop_last());
                                    assert(ops_before.last() == popped);
                                    assert(out_before + (seq![popped] + spec_pop_ge(
                                        operators@,
                                        p,
                                    ).1) =~= output@ + spec_pop_ge(operators@, p).1);
                                }
                            } else {
                                proof {
                                    assert(operators@.last() == top);
                                    assert(output@ + spec_pop_ge(operators@, p).1
                                        =~= output@);
                                }
                                break ;
                            }
                        },
                        _ => {
                            proof {
                                assert(operators@.last() == top);
                                assert(false);
                            }
                            return Err(EvalError::InvalidToken);
                        },
                    }
                }
                operators.push(t);
                proof {
                    assert(operators@ == spec_pop_ge(ops0, p).0.push(t));
                }
            },
            Token::RightParenthesis => {
                let ghost ops0 = operators@;
                let ghost out0 = output@;
                loop
                    invariant_except_break
                        spec_shunt_step(Token::RightParenthesis, ops0, out0)
                            == spec_shunt_step(
                            Token::RightParenthesis,
                            operators@,
                            output@,
                        ),
                    invariant
                        ops_wf(operators@),
                        spec_shunt(tokens@, Seq::empty(), Seq::empty()) == spec_shunt(
                            tokens@.skip(i as int),
                            ops0,
                            out0,
                        ),
                        rest == tokens@.skip(i as int),
                        rest.len() > 0,
                        rest[0] == Token::RightParenthesis,
                        rest.skip(1) == tokens@.skip(i as int + 1),
                    ensures
                        ops_wf(operators@),
                        spec_shunt_step(Token::RightParenthesis, ops0, out0)
                            == Ok::<(Seq<Token>, Seq<Token>), EvalError>(
                            (operators@, output@),
                        ),
                    decreases operators@.len(),
                {
                    let ghost ops_before = operators@;
                    let ghost out_before = output@;
                    match operators.pop() {
                        None => {
                            proof {
                                assert(spec_shunt_step(Token::RightParenthesis, ops0, out0)
                                    == Err::<(Seq<Token>, Seq<Token>), EvalError>(
                                    EvalError::ParenthesisMismatch,
                                ));
                            }
                            return Err(EvalError::ParenthesisMismatch);
                        },
                        Some(top) => {
                            proof {
                                assert(operators@ =~= ops_before.drop_last());
                                assert(ops_before.last() == top);
                            }
                            match top {
                                Token::LeftParenthesis => {
                                    proof {
                                        assert(out_before + Seq::<Token>::empty()
                                            =~= out_before);
                                    }
                                    break ;
                                },
                                _ => {
                                    output.push(top);
                                    proof {
                                        if let Ok(r) = spec_pop_to_lparen(operators@) {
                                            assert(out_before + (seq![top] + r.1)
                                                =~= output@ + r.1);
                                        }
                                    }
                                },
                            }
                        },
                    }
                }
            },
        }
        i = i + 1;
    }
    // Every token is consumed; drain the remaining operators, top first.
    let ghost ops_f = operators@;
    let ghost out_f = output@;
    proof {
        assert(tokens@.skip(n as int) =~= Seq::<Token>::empty());
        assert(spec_shunt(tokens@, Seq::empty(), Seq::empty()) == Ok::<
            (Seq<Token>, Seq<Token>),
            EvalError,
        >((ops_f, out_f)));
    }
    loop
        invariant
            spec_finish(ops_f, out_f) == spec_finish(operators@, output@),
            spec_shunt(tokens@, Seq::empty(), Seq::empty()) == Ok::<
                (Seq<Token>, Seq<Token>),
                EvalError,
            >((ops_f, out_f)),
        ensures
            spec_finish(ops_f, out_f) == spec_finish(operators@, output@),
            operators@.len() == 0,
        decreases operators@.len(),
    {
        if operators.is_empty() {
            break ;
        }
        let ghost ops_before = operators@;
        let ghost out_before = output@;
        match operators.pop() {
            None => {
                proof {
                    assert(false);
                }
                return Err(EvalError::InvalidToken);
            },
            Some(top) => {
                proof {
                    assert(operators@ =~= ops_before.drop_last());
                }
                if let Token::LeftParenthesis = top {
                    proof {
                        assert(ops_before[ops_before.len() - 1]
                            == Token::LeftParenthesis);
                        assert(contains_lparen(ops_before));
                    }
                    return Err(EvalError::ParenthesisMismatch);
                }
                output.push(top);
                proof {
                    if contains_lparen(ops_before) {
                        let k = choose|k: int|
                            0 <= k < ops_before.len() && ops_before[k]
                                == Token::LeftParenthesis;
                        assert(operators@[k] == Token::LeftParenthesis);
                        assert(contains_lparen(operators@));
                    }
                    if contains_lparen(operators@) {
                        let k = choose|k: int|
                            0 <= k < operators@.len() && operators@[k]
                                == Token::LeftParenthesis;
                        assert(ops_before[k] == Token::LeftParenthesis);
                        assert(contains_lparen(ops_before));
                    }
                    assert(ops_before.reverse() =~= seq![ops_before.last()]
                        + operators@.reverse());
                    assert(out_before + (seq![top] + operators@.reverse()) =~= output@
                        + operators@.reverse());
                }
            },
        }
    }
    proof {
        assert(operators@.reverse() =~= Seq::<Token>::empty());
        assert(output@ + operators@.reverse() =~= output@);
    }
    Ok(output)
}

} // verus!
