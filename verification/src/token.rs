//! The lexical layer: a source string becomes a sequence of tokens.
//!
//! [`spec_tokenize`] is the mathematical definition; [`tokenize`] is the
//! executable scanner, proved to return exactly what the definition says
//! for every input.

use crate::error::EvalError;
use vstd::prelude::*;

verus! {

/// One lexical token of the expression grammar.
#[derive(Clone, Copy, Debug, PartialEq, Eq, Structural)]
pub enum Token {
    /// A decimal integer literal, already in range for `i32`.
    Number(i32),
    Plus,
    Minus,
    Star,
    Slash,
    Caret,
    LParen,
    RParen,
}

/// Whitespace, insignificant between tokens.
pub open spec fn is_space_char(c: char) -> bool {
    c == ' ' || c == '\t' || c == '\n' || c == '\r'
}

/// A decimal digit.
pub open spec fn is_digit_char(c: char) -> bool {
    48 <= c as u32 <= 57
}

/// The numeric value of a decimal digit.
pub open spec fn digit_val(c: char) -> int {
    c as u32 - 48
}

/// The first position at or after `i` that does not hold a digit.
pub open spec fn digit_run_end(s: Seq<char>, i: int) -> int
    decreases s.len() - i,
{
    if 0 <= i < s.len() && is_digit_char(s[i]) {
        digit_run_end(s, i + 1)
    } else {
        i
    }
}

/// The value of the digit string `s[i..j)`, read in base ten.
pub open spec fn digit_run_val(s: Seq<char>, i: int, j: int) -> int
    decreases j - i,
{
    if i >= j {
        0
    } else {
        digit_run_val(s, i, j - 1) * 10 + digit_val(s[j - 1])
    }
}

/// Prefixes a token to a tokenization result, keeping an error as it is.
pub open spec fn prepend(t: Token, rest: Result<Seq<Token>, EvalError>) -> Result<
    Seq<Token>,
    EvalError,
> {
    match rest {
        Ok(ts) => Ok(seq![t] + ts),
        Err(e) => Err(e),
    }
}

/// The tokens of the suffix `s[i..]`.
///
/// Whitespace is skipped; a digit run becomes one `Number` token, or
/// `NumberFormatError` where its value exceeds `i32::MAX`; each operator
/// and parenthesis is one token; any other character is `SyntaxError`.
pub open spec fn spec_tokenize_from(s: Seq<char>, i: int) -> Result<Seq<Token>, EvalError>
    decreases s.len() - i,
    via spec_tokenize_from_decreases
{
    if i < 0 || i >= s.len() {
        Ok(Seq::empty())
    } else if is_space_char(s[i]) {
        spec_tokenize_from(s, i + 1)
    } else if is_digit_char(s[i]) {
        let j = digit_run_end(s, i);
        if digit_run_val(s, i, j) > i32::MAX as int {
            Err(EvalError::NumberFormatError)
        } else {
            prepend(Token::Number(digit_run_val(s, i, j) as i32), spec_tokenize_from(s, j))
        }
    } else if s[i] == '+' {
        prepend(Token::Plus, spec_tokenize_from(s, i + 1))
    } else if s[i] == '-' {
        prepend(Token::Minus, spec_tokenize_from(s, i + 1))
    } else if s[i] == '*' {
        prepend(Token::Star, spec_tokenize_from(s, i + 1))
    } else if s[i] == '/' {
        prepend(Token::Slash, spec_tokenize_from(s, i + 1))
    } else if s[i] == '^' {
        prepend(Token::Caret, spec_tokenize_from(s, i + 1))
    } else if s[i] == '(' {
        prepend(Token::LParen, spec_tokenize_from(s, i + 1))
    } else if s[i] == ')' {
        prepend(Token::RParen, spec_tokenize_from(s, i + 1))
    } else {
        Err(EvalError::SyntaxError)
    }
}

#[via_fn]
proof fn spec_tokenize_from_decreases(s: Seq<char>, i: int) {
    if 0 <= i < s.len() && !is_space_char(s[i]) && is_digit_char(s[i]) {
        lemma_digit_run_end(s, i);
    }
}

/// The tokens of the whole string `s`.
pub open spec fn spec_tokenize(s: Seq<char>) -> Result<Seq<Token>, EvalError> {
    spec_tokenize_from(s, 0)
}

/// A digit run extends over digits only, up to the string's end or the
/// first non-digit, and is non-empty when it starts on a digit.
proof fn lemma_digit_run_end(s: Seq<char>, i: int)
    requires
        0 <= i <= s.len(),
    ensures
        i <= digit_run_end(s, i) <= s.len(),
        forall|k: int| i <= k < digit_run_end(s, i) ==> is_digit_char(s[k]),
        digit_run_end(s, i) == s.len() || !is_digit_char(s[digit_run_end(s, i)]),
        i < s.len() && is_digit_char(s[i]) ==> digit_run_end(s, i) > i,
    decreases s.len() - i,
{
    if i < s.len() && is_digit_char(s[i]) {
        lemma_digit_run_end(s, i + 1);
    }
}

/// A position that closes a maximal digit run is where the run ends.
pub proof fn lemma_digit_run_end_is(s: Seq<char>, i: int, j: int)
    requires
        0 <= i <= j <= s.len(),
        forall|k: int| i <= k < j ==> is_digit_char(s[k]),
        j == s.len() || !is_digit_char(s[j]),
    ensures
        digit_run_end(s, i) == j,
    decreases j - i,
{
    if i < j {
        lemma_digit_run_end_is(s, i + 1, j);
    }
}

/// The value of a digit string is never negative.
proof fn lemma_digit_run_val_nonneg(s: Seq<char>, i: int, j: int)
    requires
        i <= j,
        forall|k: int| i <= k < j ==> is_digit_char(s[k]),
    ensures
        digit_run_val(s, i, j) >= 0,
    decreases j - i,
{
    if i < j {
        lemma_digit_run_val_nonneg(s, i, j - 1);
    }
}

/// Reading more digits never makes the value smaller.
proof fn lemma_digit_run_val_mono(s: Seq<char>, i: int, m: int, j: int)
    requires
        i <= m <= j,
        forall|k: int| i <= k < j ==> is_digit_char(s[k]),
    ensures
        digit_run_val(s, i, m) <= digit_run_val(s, i, j),
    decreases j - m,
{
    if m < j {
        lemma_digit_run_val_mono(s, i, m, j - 1);
        lemma_digit_run_val_nonneg(s, i, j - 1);
    }
}

/// Appends pending tokens in front of the tokenization of a remainder.
pub open spec fn tok_join(acc: Seq<Token>, rest: Result<Seq<Token>, EvalError>) -> Result<
    Seq<Token>,
    EvalError,
> {
    match rest {
        Ok(ts) => Ok(acc + ts),
        Err(e) => Err(e),
    }
}

/// The view of an executable tokenization result.
pub open spec fn tokens_view(r: Result<Vec<Token>, EvalError>) -> Result<Seq<Token>, EvalError> {
    match r {
        Ok(v) => Ok(v@),
        Err(e) => Err(e),
    }
}

proof fn lemma_tok_join_push(acc: Seq<Token>, t: Token, rest: Result<Seq<Token>, EvalError>)
    ensures
        tok_join(acc, prepend(t, rest)) == tok_join(acc.push(t), rest),
{
    match rest {
        Ok(ts) => {
            assert(acc + (seq![t] + ts) =~= acc.push(t) + ts);
        },
        Err(_) => {},
    }
}

fn is_digit_c(c: char) -> (r: bool)
    ensures
        r == is_digit_char(c),
{
    let u = c as u32;
    48 <= u && u <= 57
}

fn is_space_c(c: char) -> (r: bool)
    ensures
        r == is_space_char(c),
{
    c == ' ' || c == '\t' || c == '\n' || c == '\r'
}

/// Scans the rest of the digit run that began at `start`, continuing
/// at `j`, with the digits `s[start..j)` already read into `v`.
fn scan_digits(s: &str, n: usize, j: usize, v: u64, Ghost(start): Ghost<int>) -> (r: Result<
    (i32, usize),
    EvalError,
>)
    requires
        n == s@.len(),
        0 <= start <= j <= n,
        forall|k: int| start <= k < j ==> is_digit_char(s@[k]),
        v == digit_run_val(s@, start, j as int),
        v <= i32::MAX as u64,
    ensures
        match r {
            Ok(p) => {
                &&& p.1 as int == digit_run_end(s@, start)
                &&& p.0 as int == digit_run_val(s@, start, digit_run_end(s@, start))
                &&& digit_run_val(s@, start, digit_run_end(s@, start)) <= i32::MAX as int
            },
            Err(e) => {
                &&& e == EvalError::NumberFormatError
                &&& digit_run_val(s@, start, digit_run_end(s@, start)) > i32::MAX as int
            },
        },
    decreases n - j,
{
    proof {
        lemma_digit_run_end(s@, start);
    }
    if j < n {
        let c = s.get_char(j);
        if is_digit_c(c) {
            let d = (c as u32) - 48;
            let v2 = v * 10 + (d as u64);
            proof {
                assert(digit_run_val(s@, start, j + 1) == digit_run_val(s@, start, j as int) * 10
                    + digit_val(s@[j as int]));
            }
            if v2 > 0x7fff_ffff {
                proof {
                    // The run reaches at least past `j`, and its full value
                    // can only exceed the prefix already read.
                    assert(digit_run_end(s@, start) >= j + 1);
                    lemma_digit_run_val_mono(s@, start, j + 1, digit_run_end(s@, start));
                    lemma_digit_run_val_nonneg(s@, start, j + 1);
                }
                Err(EvalError::NumberFormatError)
            } else {
                scan_digits(s, n, j + 1, v2, Ghost(start))
            }
        } else {
            proof {
                lemma_digit_run_end_is(s@, start, j as int);
            }
            Ok((v as i32, j))
        }
    } else {
        proof {
            lemma_digit_run_end_is(s@, start, j as int);
        }
        Ok((v as i32, j))
    }
}

/// Turns a source string into its token sequence, or reports the first
/// lexical error, exactly as [`spec_tokenize`] prescribes.
pub fn tokenize(s: &str) -> (r: Result<Vec<Token>, EvalError>)
    ensures
        tokens_view(r) == spec_tokenize(s@),
{
    let n = s.unicode_len();
    let mut toks: Vec<Token> = Vec::new();
    let mut i: usize = 0;
    while i < n
        invariant
            n == s@.len(),
            0 <= i <= n,
            spec_tokenize(s@) == tok_join(toks@, spec_tokenize_from(s@, i as int)),
        decreases n - i,
    {
        let c = s.get_char(i);
        if is_space_c(c) {
            i = i + 1;
        } else if is_digit_c(c) {
            match scan_digits(s, n, i, 0, Ghost(i as int)) {
                Ok((value, j)) => {
                    proof {
                        lemma_digit_run_end(s@, i as int);
                        lemma_tok_join_push(
                            toks@,
                            Token::Number(value),
                            spec_tokenize_from(s@, j as int),
                        );
                    }
                    toks.push(Token::Number(value));
                    i = j;
                },
                Err(e) => {
                    return Err(e);
                },
            }
        } else if c == '+' {
            proof {
                lemma_tok_join_push(toks@, Token::Plus, spec_tokenize_from(s@, i + 1));
            }
            toks.push(Token::Plus);
            i = i + 1;
        } else if c == '-' {
            proof {
                lemma_tok_join_push(toks@, Token::Minus, spec_tokenize_from(s@, i + 1));
            }
            toks.push(Token::Minus);
            i = i + 1;
        } else if c == '*' {
            proof {
                lemma_tok_join_push(toks@, Token::Star, spec_tokenize_from(s@, i + 1));
            }
            toks.push(Token::Star);
            i = i + 1;
        } else if c == '/' {
            proof {
                lemma_tok_join_push(toks@, Token::Slash, spec_tokenize_from(s@, i + 1));
            }
            toks.push(Token::Slash);
            i = i + 1;
        } else if c == '^' {
            proof {
                lemma_tok_join_push(toks@, Token::Caret, spec_tokenize_from(s@, i + 1));
            }
            toks.push(Token::Caret);
            i = i + 1;
        } else if c == '(' {
            proof {
                lemma_tok_join_push(toks@, Token::LParen, spec_tokenize_from(s@, i + 1));
            }
            toks.push(Token::LParen);
            i = i + 1;
        } else if c == ')' {
            proof {
                lemma_tok_join_push(toks@, Token::RParen, spec_tokenize_from(s@, i + 1));
            }
            toks.push(Token::RParen);
            i = i + 1;
        } else {
            return Err(EvalError::SyntaxError);
        }
    }
    proof {
        assert(toks@ + Seq::<Token>::empty() =~= toks@);
    }
    Ok(toks)
}

} // verus!
