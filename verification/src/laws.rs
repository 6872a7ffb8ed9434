//! Laws of the pipeline: evaluation is invariant to a redundant pair of
//! parentheses around the whole expression, and character validation alone
//! decides the character-rejection error.

use vstd::prelude::*;

use crate::eval::{spec_eval_one, spec_eval_seq};
use crate::lexer::{lemma_tokenize_append, spec_tokenize, spec_unary_after};
use crate::pipeline::{spec_evaluate_expression, spec_evaluate_tokens};
use crate::scan::{
    char_allowed, lemma_split_all_append, lemma_split_single, spec_split, spec_split_all,
    spec_valid_chars, word_allowed,
};
use crate::shunting::{
    contains_lparen, spec_finish, spec_infix_to_postfix, spec_pop_ge, spec_pop_to_lparen,
    spec_shunt, spec_shunt_step,
};
use crate::token::{EvalError, Token};

verus! {

/// Consuming a concatenation of token sequences is consuming the first and
/// then, from the state it leaves, the second.
proof fn lemma_shunt_append(a: Seq<Token>, b: Seq<Token>, ops: Seq<Token>, out: Seq<Token>)
    ensures
        spec_shunt(a + b, ops, out) == (match spec_shunt(a, ops, out) {
            Ok(r) => spec_shunt(b, r.0, r.1),
            Err(e) => Err(e),
        }),
    decreases a.len(),
{
    if a.len() == 0 {
        assert(a + b =~= b);
    } else {
        assert((a + b)[0] == a[0]);
        match spec_shunt_step(a[0], ops, out) {
            Ok(r) => {
                assert((a + b).skip(1) =~= a.skip(1) + b);
                lemma_shunt_append(a.skip(1), b, r.0, r.1);
            },
            Err(_) => {},
        }
    }
}

/// A left parenthesis at the bottom of the stack is never reached by the
/// precedence-driven pops, which stop at a left parenthesis anyway.
proof fn lemma_pop_ge_framed(s: Seq<Token>, p: u8)
    ensures
        spec_pop_ge(seq![Token::LeftParenthesis] + s, p) == (
            seq![Token::LeftParenthesis] + spec_pop_ge(s, p).0,
            spec_pop_ge(s, p).1,
        ),
    decreases s.len(),
{
    let framed = seq![Token::LeftParenthesis] + s;
    if s.len() == 0 {
        assert(framed.last() == Token::LeftParenthesis);
        assert(framed =~= seq![Token::LeftParenthesis] + s);
    } else {
        assert(framed.last() == s.last());
        match s.last() {
            Token::Operator(top) => {
                if crate::token::spec_precedence(top) >= p {
                    assert(framed.drop_last() =~= seq![Token::LeftParenthesis]
                        + s.drop_last());
                    lemma_pop_ge_framed(s.drop_last(), p);
                }
            },
            _ => {},
        }
    }
}

/// With a left parenthesis under a stack that itself holds one, popping to
/// the nearest parenthesis never reaches the bottom one.
proof fn lemma_pop_to_lparen_framed_found(s: Seq<Token>)
    requires
        spec_pop_to_lparen(s) is Ok,
    ensures
        spec_pop_to_lparen(seq![Token::LeftParenthesis] + s) == Ok::<
            (Seq<Token>, Seq<Token>),
            EvalError,
        >(
            (
                seq![Token::LeftParenthesis] + spec_pop_to_lparen(s)->Ok_0.0,
                spec_pop_to_lparen(s)->Ok_0.1,
            ),
        ),
    decreases s.len(),
{
    let framed = seq![Token::LeftParenthesis] + s;
    assert(framed.last() == s.last());
    if s.last() == Token::LeftParenthesis {
        assert(framed.drop_last() =~= seq![Token::LeftParenthesis] + s.drop_last());
    } else {
        assert(framed.drop_last() =~= seq![Token::LeftParenthesis] + s.drop_last());
        lemma_pop_to_lparen_framed_found(s.drop_last());
    }
}

/// With a left parenthesis under a stack that holds none, popping to the
/// nearest parenthesis empties the stack, in top-first order, and discards
/// the bottom parenthesis.
proof fn lemma_pop_to_lparen_framed_bottom(s: Seq<Token>)
    requires
        !contains_lparen(s),
    ensures
        spec_pop_to_lparen(seq![Token::LeftParenthesis] + s) == Ok::<
            (Seq<Token>, Seq<Token>),
            EvalError,
        >((Seq::empty(), s.reverse())),
    decreases s.len(),
{
    let framed = seq![Token::LeftParenthesis] + s;
    if s.len() == 0 {
        assert(framed.last() == Token::LeftParenthesis);
        assert(framed.drop_last() =~= Seq::<Token>::empty());
        assert(s.reverse() =~= Seq::<Token>::empty());
    } else {
        assert(framed.last() == s.last());
        assert(s.last() != Token::LeftParenthesis) by {
            if s.last() == Token::LeftParenthesis {
                assert(s[s.len() - 1] == Token::LeftParenthesis);
                assert(contains_lparen(s));
            }
        }
        assert(!contains_lparen(s.drop_last())) by {
            if contains_lparen(s.drop_last()) {
                let k = choose|k: int|
                    0 <= k < s.drop_last().len() && s.drop_last()[k]
                        == Token::LeftParenthesis;
                assert(s[k] == Token::LeftParenthesis);
            }
        }
        assert(framed.drop_last() =~= seq![Token::LeftParenthesis] + s.drop_last());
        lemma_pop_to_lparen_framed_bottom(s.drop_last());
        assert(s.reverse() =~= seq![s.last()] + s.drop_last().reverse());
    }
}

/// A left parenthesis slid under the operator stack rides along untouched
/// while a token sequence whose consumption succeeds is consumed.
proof fn lemma_shunt_framed(ts: Seq<Token>, ops: Seq<Token>, out: Seq<Token>)
    requires
        spec_shunt(ts, ops, out) is Ok,
    ensures
        spec_shunt(ts, seq![Token::LeftParenthesis] + ops, out) == Ok::<
            (Seq<Token>, Seq<Token>),
            EvalError,
        >(
            (
                seq![Token::LeftParenthesis] + spec_shunt(ts, ops, out)->Ok_0.0,
                spec_shunt(ts, ops, out)->Ok_0.1,
            ),
        ),
    decreases ts.len(),
{
    if ts.len() == 0 {
    } else {
        let t = ts[0];
        match spec_shunt_step(t, ops, out) {
            Err(_) => {
                assert(false);
            },
            Ok(r) => {
                match t {
                    Token::Operand(_) => {},
                    Token::LeftParenthesis => {
                        assert((seq![Token::LeftParenthesis] + ops).push(t)
                            =~= seq![Token::LeftParenthesis] + ops.push(t));
                    },
                    Token::Operator(op) => {
                        let p = crate::token::spec_precedence(op);
                        lemma_pop_ge_framed(ops, p);
                        assert((seq![Token::LeftParenthesis] + spec_pop_ge(ops, p).0).push(
                            t,
                        ) =~= seq![Token::LeftParenthesis] + spec_pop_ge(ops, p).0.push(t));
                    },
                    Token::RightParenthesis => {
                        assert(spec_pop_to_lparen(ops) is Ok);
                        lemma_pop_to_lparen_framed_found(ops);
                    },
                }
                lemma_shunt_framed(ts.skip(1), r.0, r.1);
            },
        }
    }
}

/// Evaluation is invariant to a redundant pair of parentheses around the
/// whole expression: when an infix token sequence converts to postfix, the
/// same sequence wrapped in `(` and `)` converts to the same postfix form,
/// and so evaluates to the same result.
pub proof fn lemma_redundant_parens(ts: Seq<Token>)
    requires
        spec_infix_to_postfix(ts) is Ok,
    ensures
        spec_infix_to_postfix(
            seq![Token::LeftParenthesis] + ts + seq![Token::RightParenthesis],
        ) == spec_infix_to_postfix(ts),
        spec_evaluate_tokens(seq![Token::LeftParenthesis] + ts + seq![Token::RightParenthesis])
            == spec_evaluate_tokens(ts),
{
    let lp = seq![Token::LeftParenthesis];
    let rp = seq![Token::RightParenthesis];
    let wrapped = lp + ts + rp;
    let empty_ops = Seq::<Token>::empty();
    let empty_out = Seq::<Token>::empty();

    // Consuming the whole of `ts` from the empty state succeeds, and the
    // stack it leaves holds no left parenthesis.
    let r = spec_shunt(ts, empty_ops, empty_out);
    assert(r is Ok);
    let ops2 = r->Ok_0.0;
    let out2 = r->Ok_0.1;
    assert(!contains_lparen(ops2));

    // The leading `(` goes on the stack and `ts` is consumed above it.
    assert(wrapped[0] == Token::LeftParenthesis);
    assert(empty_ops.push(Token::LeftParenthesis) =~= lp);
    assert(seq![Token::LeftParenthesis] + empty_ops =~= lp);
    assert(wrapped.skip(1) =~= ts + rp);
    assert(spec_shunt_step(Token::LeftParenthesis, empty_ops, empty_out) == Ok::<
        (Seq<Token>, Seq<Token>),
        EvalError,
    >((lp, empty_out)));
    assert(spec_shunt(wrapped, empty_ops, empty_out) == spec_shunt(ts + rp, lp, empty_out));
    lemma_shunt_framed(ts, empty_ops, empty_out);
    assert(spec_shunt(ts, lp, empty_out) == Ok::<(Seq<Token>, Seq<Token>), EvalError>(
        (lp + ops2, out2),
    ));
    lemma_shunt_append(ts, rp, lp, empty_out);
    assert(spec_shunt(ts + rp, lp, empty_out) == spec_shunt(rp, lp + ops2, out2));

    // The trailing `)` pops the stack down to the bottom `(` and discards it.
    assert(rp[0] == Token::RightParenthesis);
    lemma_pop_to_lparen_framed_bottom(ops2);
    assert(spec_pop_to_lparen(lp + ops2) == Ok::<(Seq<Token>, Seq<Token>), EvalError>(
        (Seq::empty(), ops2.reverse()),
    ));
    assert(spec_shunt_step(Token::RightParenthesis, lp + ops2, out2) == Ok::<
        (Seq<Token>, Seq<Token>),
        EvalError,
    >((Seq::empty(), out2 + ops2.reverse())));
    assert(rp.skip(1) =~= Seq::<Token>::empty());
    assert(spec_shunt(Seq::<Token>::empty(), Seq::<Token>::empty(), out2 + ops2.reverse())
        == Ok::<(Seq<Token>, Seq<Token>), EvalError>(
        (Seq::empty(), out2 + ops2.reverse()),
    ));
    assert(spec_shunt(rp, lp + ops2, out2) == Ok::<(Seq<Token>, Seq<Token>), EvalError>(
        (Seq::empty(), out2 + ops2.reverse()),
    ));
    assert(spec_shunt(wrapped, empty_ops, empty_out) == Ok::<
        (Seq<Token>, Seq<Token>),
        EvalError,
    >((Seq::empty(), out2 + ops2.reverse())));

    // The finish phases agree: the wrapped run has already drained its
    // stack into the output that the plain run drains at the end.
    assert(Seq::<Token>::empty().reverse() =~= Seq::<Token>::empty());
    assert((out2 + ops2.reverse()) + Seq::<Token>::empty() =~= out2 + ops2.reverse());
    assert(spec_finish(Seq::empty(), out2 + ops2.reverse()) == Ok::<Seq<Token>, EvalError>(
        out2 + ops2.reverse(),
    ));
}

/// Evaluation is invariant to a redundant pair of parentheses around the
/// whole input: when a word sequence evaluates to a value, the same words
/// between a `"("` word and a `")"` word evaluate to the same value.
pub proof fn lemma_redundant_parens_words(words: Seq<Seq<char>>)
    requires
        spec_evaluate_expression(words) is Ok,
    ensures
        spec_evaluate_expression(seq![seq!['(']] + words + seq![seq![')']])
            == spec_evaluate_expression(words),
{
    reveal_with_fuel(spec_tokenize, 3);
    reveal_with_fuel(spec_unary_after, 3);
    reveal_with_fuel(crate::scan::spec_split_all, 3);
    let lw = seq![seq!['(']];
    let rw = seq![seq![')']];
    let wrapped = lw + words + rw;

    // The added characters are themselves allowed, so validation still
    // passes on the wrapped words.
    assert(spec_valid_chars(words));
    assert(word_allowed(seq!['('])) by {
        assert(seq!['('][0] == '(');
        assert(char_allowed('('));
    }
    assert(word_allowed(seq![')'])) by {
        assert(seq![')'][0] == ')');
        assert(char_allowed(')'));
    }
    assert(spec_valid_chars(wrapped)) by {
        assert forall|i: int| 0 <= i < wrapped.len() implies word_allowed(
            #[trigger] wrapped[i],
        ) by {
            if i == 0 {
                assert(wrapped[0] == seq!['(']);
            } else if i <= words.len() {
                assert(wrapped[i] == words[i - 1]);
            } else {
                assert(wrapped[i] == seq![')']);
            }
        }
    }

    // The parenthesis words split into single parenthesis symbols on each
    // side of the symbols of the plain words.
    let symbols = spec_split_all(words);
    lemma_split_all_append(lw + words, rw);
    lemma_split_all_append(lw, words);
    lemma_split_single('(');
    lemma_split_single(')');
    let lsym = seq![seq!['(']];
    let rsym = seq![seq![')']];
    assert(spec_split_all(lw) =~= lsym) by {
        assert(lw.skip(1) =~= Seq::<Seq<char>>::empty());
        assert(spec_split(lw[0]) + spec_split_all(lw.skip(1)) =~= seq![seq!['(']]);
    }
    assert(spec_split_all(rw) =~= rsym) by {
        assert(rw.skip(1) =~= Seq::<Seq<char>>::empty());
        assert(spec_split(rw[0]) + spec_split_all(rw.skip(1)) =~= seq![seq![')']]);
    }
    assert((lw + words) + rw =~= wrapped);
    assert(spec_split_all(wrapped) == (lsym + symbols) + rsym);

    // Tokenization turns them into the parenthesis tokens around the
    // tokens of the plain words: a leading `(` leaves the unary flag set,
    // and `)` reads the same under either flag value.
    let ts = spec_tokenize(symbols, true)->Ok_0;
    assert(spec_tokenize(symbols, true) == Ok::<Seq<Token>, EvalError>(ts));
    assert(spec_tokenize(lsym, true) == Ok::<Seq<Token>, EvalError>(
        seq![Token::LeftParenthesis],
    )) by {
        assert(lsym[0] == seq!['(']);
        assert(lsym.skip(1) =~= Seq::<Seq<char>>::empty());
        assert(seq![Token::LeftParenthesis] + Seq::<Token>::empty()
            =~= seq![Token::LeftParenthesis]);
    }
    assert(spec_unary_after(lsym, true)) by {
        assert(lsym.skip(1) =~= Seq::<Seq<char>>::empty());
    }
    let u_end = spec_unary_after(symbols, true);
    assert(spec_tokenize(rsym, u_end) == Ok::<Seq<Token>, EvalError>(
        seq![Token::RightParenthesis],
    )) by {
        assert(rsym[0] == seq![')']);
        assert(rsym.skip(1) =~= Seq::<Seq<char>>::empty());
        assert(seq![Token::RightParenthesis] + Seq::<Token>::empty()
            =~= seq![Token::RightParenthesis]);
    }
    lemma_tokenize_append(symbols, rsym, true);
    lemma_tokenize_append(lsym, symbols + rsym, true);
    assert(spec_tokenize((lsym + symbols) + rsym, true) == Ok::<Seq<Token>, EvalError>(
        seq![Token::LeftParenthesis] + ts + seq![Token::RightParenthesis],
    )) by {
        assert(lsym + (symbols + rsym) =~= (lsym + symbols) + rsym);
        assert(seq![Token::LeftParenthesis] + (ts + seq![Token::RightParenthesis]) =~= (
        seq![Token::LeftParenthesis] + ts) + seq![Token::RightParenthesis]);
    }

    // The wrapped token sequence converts to the same postfix form.
    assert(spec_infix_to_postfix(ts) is Ok);
    lemma_redundant_parens(ts);
}

/// Tokenization never reports a character-validation failure; its own
/// failures are the unclassifiable symbol and the unparsable digit run.
proof fn lemma_tokenize_no_invalid_char(strings: Seq<Seq<char>>, unary: bool)
    ensures
        spec_tokenize(strings, unary) != Err::<Seq<Token>, EvalError>(
            EvalError::InvalidCharacter,
        ),
    decreases strings.len(),
{
    if strings.len() > 0 {
        lemma_tokenize_no_invalid_char(
            strings.skip(1),
            crate::lexer::spec_next_unary(strings[0], unary),
        );
    }
}

/// Popping to a left parenthesis fails only with a parenthesis mismatch.
proof fn lemma_pop_to_lparen_err(ops: Seq<Token>)
    ensures
        spec_pop_to_lparen(ops) is Ok || spec_pop_to_lparen(ops) == Err::<
            (Seq<Token>, Seq<Token>),
            EvalError,
        >(EvalError::ParenthesisMismatch),
    decreases ops.len(),
{
    if ops.len() > 0 && ops.last() != Token::LeftParenthesis {
        lemma_pop_to_lparen_err(ops.drop_last());
    }
}

/// The infix-to-postfix conversion fails only with a parenthesis mismatch.
proof fn lemma_shunt_err(tokens: Seq<Token>, ops: Seq<Token>, out: Seq<Token>)
    ensures
        spec_shunt(tokens, ops, out) is Ok || spec_shunt(tokens, ops, out) == Err::<
            (Seq<Token>, Seq<Token>),
            EvalError,
        >(EvalError::ParenthesisMismatch),
    decreases tokens.len(),
{
    if tokens.len() > 0 {
        lemma_pop_to_lparen_err(ops);
        match spec_shunt_step(tokens[0], ops, out) {
            Ok(r) => {
                lemma_shunt_err(tokens.skip(1), r.0, r.1);
            },
            Err(_) => {},
        }
    }
}

/// Postfix evaluation never reports a character-validation failure.
proof fn lemma_eval_no_invalid_char(tokens: Seq<Token>, stack: Seq<i32>)
    ensures
        spec_eval_seq(tokens, stack) != Err::<Seq<i32>, EvalError>(EvalError::InvalidCharacter),
    decreases tokens.len(),
{
    if tokens.len() > 0 {
        match spec_eval_one(tokens[0], stack) {
            Ok(s) => {
                lemma_eval_no_invalid_char(tokens.skip(1), s);
            },
            Err(_) => {},
        }
    }
}

/// Character validation alone decides the character error: the pipeline
/// rejects the words with `InvalidCharacter` exactly when some character
/// lies outside the allowed alphabet, and then no later stage runs.
pub proof fn lemma_invalid_character_iff(words: Seq<Seq<char>>)
    ensures
        spec_evaluate_expression(words) == Err::<i32, EvalError>(EvalError::InvalidCharacter)
            <==> !spec_valid_chars(words),
{
    if spec_valid_chars(words) {
        let symbols = crate::scan::spec_split_all(words);
        lemma_tokenize_no_invalid_char(symbols, true);
        match spec_tokenize(symbols, true) {
            Err(_) => {},
            Ok(ts) => {
                lemma_shunt_err(ts, Seq::empty(), Seq::empty());
                match spec_infix_to_postfix(ts) {
                    Err(_) => {},
                    Ok(pf) => {
                        lemma_eval_no_invalid_char(pf, Seq::empty());
                    },
                }
            },
        }
    }
}

} // verus!
