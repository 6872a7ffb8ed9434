//! A verified evaluator for arithmetic expressions over binary numerals.
//!
//! Expressions are written with operands in base-2 notation (runs of `0`/`1`
//! digits), the four binary operators `+`, `-`, `*`, `/`, unary negation `-`,
//! and parentheses. The pipeline validates the characters of the input words,
//! splits each word into atomic symbols, tokenizes the symbols, reorders the
//! token sequence from infix to postfix with the shunting-yard algorithm, and
//! evaluates the postfix sequence on a stack of signed 32-bit values.

pub mod eval;
pub mod laws;
pub mod lexer;
pub mod pipeline;
pub mod scan;
pub mod shunting;
pub mod token;

pub use eval::evaluate_postfix;
pub use pipeline::evaluate_expression;
pub use lexer::{is_binary, tokenize};
pub use shunting::infix_to_postfix;
pub use scan::{split_string, split_strings, validate_chars};
pub use token::{precedence, EvalError, Operator, Token};
