//! The whole evaluation pipeline on a sequence of raw input words:
//! character validation, lexical splitting, tokenization, infix-to-postfix
//! conversion, and postfix evaluation, short-circuiting at the first
//! failing stage.

use vstd::prelude::*;

use crate::eval::{evaluate_postfix, spec_evaluate_postfix};
use crate::lexer::{spec_tokenize, tokenize};
use crate::scan::{spec_split_all, spec_valid_chars, split_strings, validate_chars};
use crate::shunting::{infix_to_postfix, spec_infix_to_postfix};
use crate::token::{EvalError, Token};

verus! {

/// The value of the expression held by the words `words`: a word sequence
/// with a character outside the allowed alphabet is rejected whole before
/// tokenization; otherwise the words are split into symbols, tokenized,
/// converted to postfix, and evaluated, and the first failing stage
/// decides the error.
/// The value of the infix token sequence `ts`: its postfix form evaluated,
/// or the first failure of conversion or evaluation.
pub open spec fn spec_evaluate_tokens(ts: Seq<Token>) -> Result<i32, EvalError> {
    match spec_infix_to_postfix(ts) {
        Err(e) => Err(e),
        Ok(pf) => spec_evaluate_postfix(pf),
    }
}

pub open spec fn spec_evaluate_expression(words: Seq<Seq<char>>) -> Result<i32, EvalError> {
    if !spec_valid_chars(words) {
        Err(EvalError::InvalidCharacter)
    } else {
        match spec_tokenize(spec_split_all(words), true) {
            Err(e) => Err(e),
            Ok(ts) => spec_evaluate_tokens(ts),
        }
    }
}

/// Evaluates the expression written in the input words `words`, running
/// every stage of the pipeline and failing at the first stage that
/// rejects its input.
pub fn evaluate_expression(words: &[String]) -> (r: Result<i32, EvalError>)
    ensures
        r == spec_evaluate_expression(words.deep_view()),
{
    if !validate_chars(words) {
        return Err(EvalError::InvalidCharacter);
    }
    let symbols = split_strings(words);
    let symbol_slice: &[String] = symbols.as_slice();
    proof {
        assert(symbol_slice.deep_view() =~= symbols.deep_view());
    }
    let tokens = match tokenize(symbol_slice) {
        Ok(ts) => ts,
        Err(e) => {
            return Err(e);
        },
    };
    let postfix = match infix_to_postfix(tokens) {
        Ok(pf) => pf,
        Err(e) => {
            return Err(e);
        },
    };
    evaluate_postfix(postfix)
}

} // verus!
