//! Tokenization of atomic symbols.
//!
//! Each symbol becomes one token. The single running piece of state is the
//! `unary` flag: whether the next position may start a value, which is true
//! at the beginning and after `(` or any operator, and false after a value
//! or `)`. A `-` met while the flag is set is unary negation; otherwise it
//! is binary subtraction.

use vstd::prelude::*;

use crate::scan::is_bit;
use crate::token::{EvalError, Operator, Token};

verus! {

/// Whether every character of `s` is a binary digit (vacuously true of the
/// empty sequence).
pub open spec fn spec_is_binary(s: Seq<char>) -> bool {
    forall|j: int| 0 <= j < s.len() ==> is_bit(#[trigger] s[j])
}

/// The numeric value of the digit `c`: `'1'` counts one, anything else zero.
pub open spec fn bit_val(c: char) -> nat {
    if c == '1' {
        1
    } else {
        0
    }
}

/// The standard unsigned base-2 reading of the digit sequence `s`:
/// `"0"` is 0, `"1"` is 1, `"10"` is 2, `"1010"` is 10.
pub open spec fn parse_binary(s: Seq<char>) -> nat
    decreases s.len(),
{
    if s.len() == 0 {
        0
    } else {
        2 * parse_binary(s.drop_last()) + bit_val(s.last())
    }
}

/// The token of the symbol `s` at a position where the unary flag holds the
/// value `unary`: parentheses and the four operator characters map to their
/// tokens, `-` reads as negation exactly when `unary` is set, and a digit
/// run becomes an operand holding its base-2 value. A digit run that is
/// empty or does not fit in an `i32` fails with `NumberParseError`; any
/// other symbol fails with `InvalidToken`.
pub open spec fn spec_token_of(s: Seq<char>, unary: bool) -> Result<Token, EvalError> {
    if s.len() == 1 && s[0] == '(' {
        Ok(Token::LeftParenthesis)
    } else if s.len() == 1 && s[0] == ')' {
        Ok(Token::RightParenthesis)
    } else if s.len() == 1 && s[0] == '*' {
        Ok(Token::Operator(Operator::Multiply))
    } else if s.len() == 1 && s[0] == '/' {
        Ok(Token::Operator(Operator::Divide))
    } else if s.len() == 1 && s[0] == '+' {
        Ok(Token::Operator(Operator::Add))
    } else if s.len() == 1 && s[0] == '-' {
        if unary {
            Ok(Token::Operator(Operator::Negate))
        } else {
            Ok(Token::Operator(Operator::Subtract))
        }
    } else if spec_is_binary(s) {
        if s.len() > 0 && parse_binary(s) <= i32::MAX {
            Ok(Token::Operand(parse_binary(s) as i32))
        } else {
            Err(EvalError::NumberParseError)
        }
    } else {
        Err(EvalError::InvalidToken)
    }
}

/// The unary flag after the symbol `s` is consumed: set after `(` and after
/// every operator but a unary `-` (two `-` in a row read as subtraction of
/// a negated value), clear after `)` and after a digit run.
pub open spec fn spec_next_unary(s: Seq<char>, unary: bool) -> bool {
    if s.len() == 1 && s[0] == '(' {
        true
    } else if s.len() == 1 && s[0] == ')' {
        false
    } else if s.len() == 1 && (s[0] == '*' || s[0] == '/' || s[0] == '+') {
        true
    } else if s.len() == 1 && s[0] == '-' {
        !unary
    } else if spec_is_binary(s) {
        false
    } else {
        unary
    }
}

/// The token sequence of the symbols `strings`, read left to right starting
/// with the unary flag holding `unary`; the first failing symbol aborts the
/// whole sequence.
pub open spec fn spec_tokenize(strings: Seq<Seq<char>>, unary: bool) -> Result<
    Seq<Token>,
    EvalError,
>
    decreases strings.len(),
{
    if strings.len() == 0 {
        Ok(Seq::empty())
    } else {
        match spec_token_of(strings[0], unary) {
            Err(e) => Err(e),
            Ok(t) => match spec_tokenize(strings.skip(1), spec_next_unary(strings[0], unary)) {
                Err(e) => Err(e),
                Ok(rest) => Ok(seq![t] + rest),
            },
        }
    }
}

/// The unary flag after all of `strings` is consumed, starting from
/// `unary`.
pub open spec fn spec_unary_after(strings: Seq<Seq<char>>, unary: bool) -> bool
    decreases strings.len(),
{
    if strings.len() == 0 {
        unary
    } else {
        spec_unary_after(strings.skip(1), spec_next_unary(strings[0], unary))
    }
}

/// Tokenizing a concatenation of symbol sequences is tokenizing the first
/// and then the second, from the unary flag the first leaves behind.
pub proof fn lemma_tokenize_append(a: Seq<Seq<char>>, b: Seq<Seq<char>>, unary: bool)
    ensures
        spec_tokenize(a + b, unary) == (match spec_tokenize(a, unary) {
            Ok(ta) => match spec_tokenize(b, spec_unary_after(a, unary)) {
                Ok(tb) => Ok::<Seq<Token>, EvalError>(ta + tb),
                Err(e) => Err::<Seq<Token>, EvalError>(e),
            },
            Err(e) => Err::<Seq<Token>, EvalError>(e),
        }),
    decreases a.len(),
{
    if a.len() == 0 {
        assert(a + b =~= b);
        match spec_tokenize(b, unary) {
            Ok(tb) => {
                assert(Seq::<Token>::empty() + tb =~= tb);
            },
            Err(_) => {},
        }
    } else {
        assert((a + b)[0] == a[0]);
        assert((a + b).skip(1) =~= a.skip(1) + b);
        match spec_token_of(a[0], unary) {
            Err(_) => {},
            Ok(t) => {
                let u2 = spec_next_unary(a[0], unary);
                lemma_tokenize_append(a.skip(1), b, u2);
                match spec_tokenize(a.skip(1), u2) {
                    Err(_) => {},
                    Ok(ta2) => {
                        match spec_tokenize(b, spec_unary_after(a.skip(1), u2)) {
                            Err(_) => {},
                            Ok(tb) => {
                                assert(seq![t] + (ta2 + tb) =~= (seq![t] + ta2) + tb);
                            },
                        }
                    },
                }
            },
        }
    }
}

/// Relates an executable tokenization result to its specification.
pub open spec fn tokens_match(r: Result<Vec<Token>, EvalError>, s: Result<Seq<Token>, EvalError>) -> bool {
    match (r, s) {
        (Ok(v), Ok(ts)) => v@ == ts,
        (Err(e1), Err(e2)) => e1 == e2,
        _ => false,
    }
}

/// In an operand position (either value of the unary flag), a non-empty
/// digit run whose value fits in an `i32` always tokenizes to the operand
/// holding its base-2 value, and clears the flag.
pub proof fn lemma_tokenize_digit_run(s: Seq<char>, unary: bool)
    requires
        spec_is_binary(s),
        s.len() > 0,
        parse_binary(s) <= i32::MAX,
    ensures
        spec_token_of(s, unary) == Ok::<Token, EvalError>(
            Token::Operand(parse_binary(s) as i32),
        ),
        spec_next_unary(s, unary) == false,
{
    assert(is_bit(s[0]));
}

/// Returns whether every character of `num` is a binary digit.
pub fn is_binary(num: &str) -> (r: bool)
    ensures
        r == spec_is_binary(num@),
{
    let n = num.unicode_len();
    let mut j: usize = 0;
    while j < n
        invariant
            0 <= j <= n == num@.len(),
            forall|k: int| 0 <= k < j ==> is_bit(#[trigger] num@[k]),
        decreases n - j,
    {
        let c = num.get_char(j);
        if !(c == '0' || c == '1') {
            assert(!is_bit(num@[j as int]));
            return false;
        }
        j = j + 1;
    }
    true
}

/// Every prefix of a digit sequence reads as at most the whole sequence.
proof fn lemma_parse_prefix_le(s: Seq<char>, i: int)
    requires
        0 <= i <= s.len(),
    ensures
        parse_binary(s.take(i)) <= parse_binary(s),
    decreases s.len() - i,
{
    if i < s.len() {
        lemma_parse_prefix_le(s, i + 1);
        assert(s.take(i + 1).drop_last() =~= s.take(i));
        assert(parse_binary(s.take(i + 1)) == 2 * parse_binary(s.take(i)) + bit_val(
            s[i],
        ));
    } else {
        assert(s.take(i) =~= s);
    }
}

/// Parses `num` as an unsigned base-2 numeral. Returns the value when `num`
/// is non-empty and the value fits in an `i32`, and nothing otherwise.
fn parse_binary_i32(num: &str) -> (r: Option<i32>)
    requires
        spec_is_binary(num@),
    ensures
        r == (if num@.len() > 0 && parse_binary(num@) <= i32::MAX {
            Some(parse_binary(num@) as i32)
        } else {
            None::<i32>
        }),
{
    let n = num.unicode_len();
    if n == 0 {
        return None;
    }
    let mut acc: u32 = 0;
    let mut j: usize = 0;
    while j < n
        invariant
            0 <= j <= n == num@.len(),
            spec_is_binary(num@),
            acc == parse_binary(num@.take(j as int)),
            acc <= i32::MAX,
        decreases n - j,
    {
        let c = num.get_char(j);
        let bit: u32 = if c == '1' {
            1
        } else {
            0
        };
        proof {
            assert(num@.take(j as int + 1).drop_last() =~= num@.take(j as int));
        }
        if acc > 0x3FFF_FFFF {
            proof {
                lemma_parse_prefix_le(num@, j as int + 1);
            }
            return None;
        }
        acc = 2 * acc + bit;
        j = j + 1;
    }
    proof {
        assert(num@.take(n as int) =~= num@);
    }
    Some(acc as i32)
}

/// Turns the symbols of `strings` into tokens, read left to right with the
/// unary flag initially set (an expression may begin with a value or a
/// unary minus); the first symbol that cannot be classified, or whose digit
/// run does not parse, fails the whole sequence.
pub fn tokenize(strings: &[String]) -> (r: Result<Vec<Token>, EvalError>)
    ensures
        tokens_match(r, spec_tokenize(strings.deep_view(), true)),
{
    let ghost words = strings.deep_view();
    let n = strings.len();
    let mut out: Vec<Token> = Vec::new();
    let mut unary: bool = true;
    proof {
        assert(words.skip(0) =~= words);
    }
    let mut i: usize = 0;
    while i < n
        invariant
            0 <= i <= n == strings@.len(),
            words == strings.deep_view(),
            spec_tokenize(words, true) == (match spec_tokenize(words.skip(i as int), unary) {
                Ok(ts) => Ok::<Seq<Token>, EvalError>(out@ + ts),
                Err(e) => Err::<Seq<Token>, EvalError>(e),
            }),
        decreases n - i,
    {
        let ghost rest = words.skip(i as int);
        let ghost old_unary = unary;
        proof {
            assert(rest[0] == words[i as int]);
            assert(rest.skip(1) =~= words.skip(i as int + 1));
        }
        let s: &str = strings[i].as_str();
        let sn = s.unicode_len();
        let token: Token;
        if sn == 1 {
            let c = s.get_char(0);
            match c {
                '(' => {
                    unary = true;
                    token = Token::LeftParenthesis;
                },
                ')' => {
                    unary = false;
                    token = Token::RightParenthesis;
                },
                '*' => {
                    unary = true;
                    token = Token::Operator(Operator::Multiply);
                },
                '/' => {
                    unary = true;
                    token = Token::Operator(Operator::Divide);
                },
                '+' => {
                    unary = true;
                    token = Token::Operator(Operator::Add);
                },
                '-' => {
                    if unary {
                        unary = false;
                        token = Token::Operator(Operator::Negate);
                    } else {
                        unary = true;
                        token = Token::Operator(Operator::Subtract);
                    }
                },
                '0' | '1' => {
                    unary = false;
                    match parse_binary_i32(s) {
                        Some(v) => {
                            token = Token::Operand(v);
                        },
                        None => {
                            return Err(EvalError::NumberParseError);
                        },
                    }
                },
                _ => {
                    assert(!spec_is_binary(s@));
                    return Err(EvalError::InvalidToken);
                },
            }
        } else {
            if is_binary(s) {
                unary = false;
                match parse_binary_i32(s) {
                    Some(v) => {
                        token = Token::Operand(v);
                    },
                    None => {
                        return Err(EvalError::NumberParseError);
                    },
                }
            } else {
                return Err(EvalError::InvalidToken);
            }
        }
        let ghost old_out = out@;
        out.push(token);
        proof {
            assert(spec_token_of(rest[0], old_unary) == Ok::<Token, EvalError>(token));
            assert(unary == spec_next_unary(rest[0], old_unary));
            if let Ok(r2) = spec_tokenize(words.skip(i as int + 1), unary) {
                assert(old_out + (seq![token] + r2) =~= out@ + r2);
            }
        }
        i = i + 1;
    }
    proof {
        assert(words.skip(n as int) =~= Seq::<Seq<char>>::empty());
        assert(out@ + Seq::<Token>::empty() =~= out@);
    }
    Ok(out)
}

} // verus!
