//! Proved laws of the parser.
//!
//! Evaluation of a parsed tree is floating-point and happens outside
//! this library, so the laws here pin down the part the library owns:
//! which tree each class of input parses to. A decimal literal comes
//! back as its own number leaf; `a op b` comes back as the matching
//! operator node; repeated `+ - * /` group to the left and repeated
//! `^` to the right; a higher-precedence operator binds tighter on
//! either side, unless parentheses regroup it; and an operand missing
//! after an operator, or an unclosed parenthesis, parses to nothing,
//! so the caller sees a syntax error rather than a partial tree.

use crate::ast::Expr;
use crate::error::EvalError;
use crate::parser::fuel_bound;
use crate::parser::spec_atom;
use crate::parser::spec_parse;
use crate::parser::spec_parse_tokens;
use crate::parser::spec_power;
use crate::parser::spec_sum;
use crate::parser::spec_sum_tail;
use crate::parser::spec_term;
use crate::parser::spec_term_tail;
use crate::token::digit_run_val;
use crate::token::digit_val;
use crate::token::is_digit_char;
use crate::token::lemma_digit_run_end_is;
use crate::token::spec_tokenize;
use crate::token::spec_tokenize_from;
use crate::token::Token;
use vstd::prelude::*;

verus! {

/// The character of one decimal digit value.
pub open spec fn digit_char(d: int) -> char {
    if d == 0 {
        '0'
    } else if d == 1 {
        '1'
    } else if d == 2 {
        '2'
    } else if d == 3 {
        '3'
    } else if d == 4 {
        '4'
    } else if d == 5 {
        '5'
    } else if d == 6 {
        '6'
    } else if d == 7 {
        '7'
    } else if d == 8 {
        '8'
    } else {
        '9'
    }
}

/// The digits of `v` in base ten, most significant first; empty for zero.
pub open spec fn dec_digits(v: int) -> Seq<char>
    decreases v,
{
    if v <= 0 {
        Seq::empty()
    } else {
        dec_digits(v / 10).push(digit_char(v % 10))
    }
}

/// The decimal rendering of a non-negative integer.
pub open spec fn dec_str(v: int) -> Seq<char> {
    if v == 0 {
        seq!['0']
    } else {
        dec_digits(v)
    }
}

/// Pushing a character past the end leaves the value of a digit string
/// unchanged.
proof fn lemma_run_val_push(s: Seq<char>, c: char, i: int, j: int)
    requires
        0 <= i,
        j <= s.len(),
    ensures
        digit_run_val(s.push(c), i, j) == digit_run_val(s, i, j),
    decreases j - i,
{
    if i < j {
        lemma_run_val_push(s, c, i, j - 1);
        assert(s.push(c)[j - 1] == s[j - 1]);
    }
}

/// The decimal digits of `v` are digits throughout and read back as `v`.
proof fn lemma_dec_digits(v: int)
    requires
        v >= 0,
    ensures
        v > 0 ==> dec_digits(v).len() >= 1,
        forall|k: int| 0 <= k < dec_digits(v).len() ==> is_digit_char(#[trigger] dec_digits(v)[k]),
        digit_run_val(dec_digits(v), 0, dec_digits(v).len() as int) == v,
    decreases v,
{
    if v > 0 {
        lemma_dec_digits(v / 10);
        let prefix = dec_digits(v / 10);
        let s = dec_digits(v);
        let c = digit_char(v % 10);
        assert(is_digit_char(c));
        assert(digit_val(c) == v % 10);
        assert(s == prefix.push(c));
        assert forall|k: int| 0 <= k < s.len() implies is_digit_char(#[trigger] s[k]) by {
            if k < prefix.len() {
                assert(s[k] == prefix[k]);
            } else {
                assert(s[k] == c);
            }
        }
        lemma_run_val_push(prefix, c, 0, prefix.len() as int);
        assert(digit_run_val(s, 0, s.len() as int) == digit_run_val(s, 0, prefix.len() as int) * 10
            + digit_val(s[s.len() - 1]));
    }
}

/// The decimal rendering of `n` tokenizes to the single token `n`.
proof fn lemma_tokenize_decimal(n: i32)
    requires
        n >= 0,
    ensures
        spec_tokenize(dec_str(n as int)) == Ok::<Seq<Token>, EvalError>(seq![Token::Number(n)]),
{
    let s = dec_str(n as int);
    lemma_dec_digits(n as int);
    if n == 0 {
        assert(s == seq!['0']);
        assert(is_digit_char(s[0]));
        assert(digit_run_val(s, 0, 0) == 0);
        assert(digit_run_val(s, 0, 1) == digit_val('0'));
    }
    assert(s.len() >= 1);
    assert(forall|k: int| 0 <= k < s.len() ==> is_digit_char(#[trigger] s[k]));
    lemma_digit_run_end_is(s, 0, s.len() as int);
    assert(digit_run_val(s, 0, s.len() as int) == n as int);
    assert(spec_tokenize_from(s, s.len() as int) == Ok::<Seq<Token>, EvalError>(Seq::empty()));
    assert(!crate::token::is_space_char(s[0]));
    assert(spec_tokenize_from(s, 0) == Ok::<Seq<Token>, EvalError>(
        seq![Token::Number(n)] + Seq::empty(),
    ));
    assert(seq![Token::Number(n)] + Seq::<Token>::empty() =~= seq![Token::Number(n)]);
}

/// Parsing the decimal rendering of a non-negative integer yields
/// exactly that number leaf. Together with the evaluator's promotion of
/// a leaf to floating point, this is the round trip from an integer's
/// text to its value.
pub proof fn lemma_parse_decimal_literal(n: i32)
    requires
        n >= 0,
    ensures
        spec_parse(dec_str(n as int)) == Ok::<Expr, EvalError>(Expr::Number(n)),
{
    lemma_tokenize_decimal(n);
    let t = seq![Token::Number(n)];
    assert(t.len() == 1);
    assert(spec_atom(t, 0, 10) == Some(Some((Expr::Number(n), 1int))));
    assert(spec_power(t, 0, 11) == Some(Some((Expr::Number(n), 1int))));
    assert(spec_term_tail(t, 1, Expr::Number(n), 11) == Some(Some((Expr::Number(n), 1int))));
    assert(spec_term(t, 0, 12) == Some(Some((Expr::Number(n), 1int))));
    assert(spec_sum_tail(t, 1, Expr::Number(n), 12) == Some(Some((Expr::Number(n), 1int))));
    assert(fuel_bound(1, 0, 5) == 13nat);
    assert(spec_sum(t, 0, 13) == Some(Some((Expr::Number(n), 1int))));
    assert(spec_parse_tokens(t) == Some(Expr::Number(n)));
}

/// The node that one binary operator token builds.
pub open spec fn binary_node(op: Token, l: Expr, r: Expr) -> Expr {
    match op {
        Token::Plus => Expr::Add(Box::new(l), Box::new(r)),
        Token::Minus => Expr::Subtract(Box::new(l), Box::new(r)),
        Token::Star => Expr::Multiply(Box::new(l), Box::new(r)),
        Token::Slash => Expr::Divide(Box::new(l), Box::new(r)),
        Token::Caret => Expr::Power(Box::new(l), Box::new(r)),
        _ => Expr::Number(0),
    }
}

/// The tokens `a op b` parse to the single operator node `op` with the
/// two number leaves as its children, for every binary operator of the
/// grammar.
pub proof fn lemma_parse_binary(a: i32, op: Token, b: i32)
    requires
        op == Token::Plus || op == Token::Minus || op == Token::Star || op == Token::Slash || op
            == Token::Caret,
    ensures
        spec_parse_tokens(seq![Token::Number(a), op, Token::Number(b)]) == Some(
            binary_node(op, Expr::Number(a), Expr::Number(b)),
        ),
{
    let t = seq![Token::Number(a), op, Token::Number(b)];
    let la = Expr::Number(a);
    let lb = Expr::Number(b);
    let node = binary_node(op, la, lb);
    assert(t.len() == 3);
    assert(fuel_bound(3, 0, 5) == 29nat);
    assert(spec_atom(t, 0, 26) == Some(Some((la, 1int))));
    assert(spec_atom(t, 2, 25) == Some(Some((lb, 3int))));
    if op == Token::Plus || op == Token::Minus {
        assert(spec_power(t, 0, 27) == Some(Some((la, 1int))));
        assert(spec_term_tail(t, 1, la, 27) == Some(Some((la, 1int))));
        assert(spec_term(t, 0, 28) == Some(Some((la, 1int))));
        assert(spec_power(t, 2, 26) == Some(Some((lb, 3int))));
        assert(spec_term_tail(t, 3, lb, 26) == Some(Some((lb, 3int))));
        assert(spec_term(t, 2, 27) == Some(Some((lb, 3int))));
        assert(spec_sum_tail(t, 3, node, 27) == Some(Some((node, 3int))));
        assert(spec_sum_tail(t, 1, la, 28) == Some(Some((node, 3int))));
        assert(spec_sum(t, 0, 29) == Some(Some((node, 3int))));
    } else if op == Token::Star || op == Token::Slash {
        assert(spec_power(t, 0, 27) == Some(Some((la, 1int))));
        assert(spec_power(t, 2, 26) == Some(Some((lb, 3int))));
        assert(spec_term_tail(t, 3, node, 26) == Some(Some((node, 3int))));
        assert(spec_term_tail(t, 1, la, 27) == Some(Some((node, 3int))));
        assert(spec_term(t, 0, 28) == Some(Some((node, 3int))));
        assert(spec_sum_tail(t, 3, node, 28) == Some(Some((node, 3int))));
        assert(spec_sum(t, 0, 29) == Some(Some((node, 3int))));
    } else {
        assert(spec_atom(t, 2, 26) == Some(Some((lb, 3int))));
        assert(spec_power(t, 2, 27) == Some(Some((lb, 3int))));
        assert(spec_power(t, 0, 27) == Some(Some((node, 3int))));
        assert(spec_term_tail(t, 3, node, 27) == Some(Some((node, 3int))));
        assert(spec_term(t, 0, 28) == Some(Some((node, 3int))));
        assert(spec_sum_tail(t, 3, node, 28) == Some(Some((node, 3int))));
        assert(spec_sum(t, 0, 29) == Some(Some((node, 3int))));
    }
    assert(spec_parse_tokens(t) == Some(node));
}

/// Chains of the additive operators group to the left: `a op1 b op2 c`
/// parses as `(a op1 b) op2 c`. In particular `7 - 3 - 2` means
/// `(7 - 3) - 2`, the conventional reading.
pub proof fn lemma_additive_left_associative(a: i32, op1: Token, b: i32, op2: Token, c: i32)
    requires
        op1 == Token::Plus || op1 == Token::Minus,
        op2 == Token::Plus || op2 == Token::Minus,
    ensures
        spec_parse_tokens(seq![Token::Number(a), op1, Token::Number(b), op2, Token::Number(c)])
            == Some(binary_node(op2, binary_node(op1, Expr::Number(a), Expr::Number(b)), Expr::Number(c))),
{
    let t = seq![Token::Number(a), op1, Token::Number(b), op2, Token::Number(c)];
    let la = Expr::Number(a);
    let lb = Expr::Number(b);
    let lc = Expr::Number(c);
    let inner = binary_node(op1, la, lb);
    let outer = binary_node(op2, inner, lc);
    assert(t.len() == 5);
    assert(fuel_bound(5, 0, 5) == 45nat);
    assert(spec_atom(t, 0, 42) == Some(Some((la, 1int))));
    assert(spec_power(t, 0, 43) == Some(Some((la, 1int))));
    assert(spec_term_tail(t, 1, la, 43) == Some(Some((la, 1int))));
    assert(spec_term(t, 0, 44) == Some(Some((la, 1int))));
    assert(spec_atom(t, 2, 41) == Some(Some((lb, 3int))));
    assert(spec_power(t, 2, 42) == Some(Some((lb, 3int))));
    assert(spec_term_tail(t, 3, lb, 42) == Some(Some((lb, 3int))));
    assert(spec_term(t, 2, 43) == Some(Some((lb, 3int))));
    assert(spec_atom(t, 4, 40) == Some(Some((lc, 5int))));
    assert(spec_power(t, 4, 41) == Some(Some((lc, 5int))));
    assert(spec_term_tail(t, 5, lc, 41) == Some(Some((lc, 5int))));
    assert(spec_term(t, 4, 42) == Some(Some((lc, 5int))));
    assert(spec_sum_tail(t, 5, outer, 42) == Some(Some((outer, 5int))));
    assert(spec_sum_tail(t, 3, inner, 43) == Some(Some((outer, 5int))));
    assert(spec_sum_tail(t, 1, la, 44) == Some(Some((outer, 5int))));
    assert(spec_sum(t, 0, 45) == Some(Some((outer, 5int))));
    assert(spec_parse_tokens(t) == Some(outer));
}

/// Chains of the multiplicative operators group to the left:
/// `a op1 b op2 c` parses as `(a op1 b) op2 c` for `*` and `/`.
pub proof fn lemma_multiplicative_left_associative(a: i32, op1: Token, b: i32, op2: Token, c: i32)
    requires
        op1 == Token::Star || op1 == Token::Slash,
        op2 == Token::Star || op2 == Token::Slash,
    ensures
        spec_parse_tokens(seq![Token::Number(a), op1, Token::Number(b), op2, Token::Number(c)])
            == Some(binary_node(op2, binary_node(op1, Expr::Number(a), Expr::Number(b)), Expr::Number(c))),
{
    let t = seq![Token::Number(a), op1, Token::Number(b), op2, Token::Number(c)];
    let la = Expr::Number(a);
    let lb = Expr::Number(b);
    let lc = Expr::Number(c);
    let inner = binary_node(op1, la, lb);
    let outer = binary_node(op2, inner, lc);
    assert(t.len() == 5);
    assert(fuel_bound(5, 0, 5) == 45nat);
    assert(spec_atom(t, 0, 42) == Some(Some((la, 1int))));
    assert(spec_power(t, 0, 43) == Some(Some((la, 1int))));
    assert(spec_atom(t, 2, 41) == Some(Some((lb, 3int))));
    assert(spec_power(t, 2, 42) == Some(Some((lb, 3int))));
    assert(spec_atom(t, 4, 40) == Some(Some((lc, 5int))));
    assert(spec_power(t, 4, 41) == Some(Some((lc, 5int))));
    assert(spec_term_tail(t, 5, outer, 41) == Some(Some((outer, 5int))));
    assert(spec_term_tail(t, 3, inner, 42) == Some(Some((outer, 5int))));
    assert(spec_term_tail(t, 1, la, 43) == Some(Some((outer, 5int))));
    assert(spec_term(t, 0, 44) == Some(Some((outer, 5int))));
    assert(spec_sum_tail(t, 5, outer, 44) == Some(Some((outer, 5int))));
    assert(spec_sum(t, 0, 45) == Some(Some((outer, 5int))));
    assert(spec_parse_tokens(t) == Some(outer));
}

/// A higher-precedence operator on the right binds tighter than the
/// additive operator before it: `a op1 b op2 c` parses as
/// `a op1 (b op2 c)` when `op1` is `+` or `-` and `op2` is `*`, `/` or
/// `^`. In particular `5 + 4 * 2` means `5 + (4 * 2)`.
pub proof fn lemma_higher_precedence_on_the_right(a: i32, op1: Token, b: i32, op2: Token, c: i32)
    requires
        op1 == Token::Plus || op1 == Token::Minus,
        op2 == Token::Star || op2 == Token::Slash || op2 == Token::Caret,
    ensures
        spec_parse_tokens(seq![Token::Number(a), op1, Token::Number(b), op2, Token::Number(c)])
            == Some(binary_node(op1, Expr::Number(a), binary_node(op2, Expr::Number(b), Expr::Number(c)))),
{
    let t = seq![Token::Number(a), op1, Token::Number(b), op2, Token::Number(c)];
    let la = Expr::Number(a);
    let lb = Expr::Number(b);
    let lc = Expr::Number(c);
    let inner = binary_node(op2, lb, lc);
    let outer = binary_node(op1, la, inner);
    assert(t.len() == 5);
    assert(fuel_bound(5, 0, 5) == 45nat);
    assert(spec_atom(t, 0, 42) == Some(Some((la, 1int))));
    assert(spec_power(t, 0, 43) == Some(Some((la, 1int))));
    assert(spec_term_tail(t, 1, la, 43) == Some(Some((la, 1int))));
    assert(spec_term(t, 0, 44) == Some(Some((la, 1int))));
    assert(spec_atom(t, 2, 41) == Some(Some((lb, 3int))));
    assert(spec_atom(t, 4, 40) == Some(Some((lc, 5int))));
    if op2 == Token::Caret {
        assert(spec_power(t, 4, 41) == Some(Some((lc, 5int))));
        assert(spec_power(t, 2, 42) == Some(Some((inner, 5int))));
        assert(spec_term_tail(t, 5, inner, 42) == Some(Some((inner, 5int))));
        assert(spec_term(t, 2, 43) == Some(Some((inner, 5int))));
    } else {
        assert(spec_power(t, 2, 42) == Some(Some((lb, 3int))));
        assert(spec_power(t, 4, 41) == Some(Some((lc, 5int))));
        assert(spec_term_tail(t, 5, inner, 41) == Some(Some((inner, 5int))));
        assert(spec_term_tail(t, 3, lb, 42) == Some(Some((inner, 5int))));
        assert(spec_term(t, 2, 43) == Some(Some((inner, 5int))));
    }
    assert(spec_sum_tail(t, 5, outer, 43) == Some(Some((outer, 5int))));
    assert(spec_sum_tail(t, 1, la, 44) == Some(Some((outer, 5int))));
    assert(spec_sum(t, 0, 45) == Some(Some((outer, 5int))));
    assert(spec_parse_tokens(t) == Some(outer));
}

/// A higher-precedence operator on the left binds tighter than the
/// additive operator after it: `a op1 b op2 c` parses as
/// `(a op1 b) op2 c` when `op1` is `*`, `/` or `^` and `op2` is `+` or
/// `-`. In particular `2 ^ 3 + 4` means `(2 ^ 3) + 4` and
/// `10 / 2 + 3` means `(10 / 2) + 3`.
pub proof fn lemma_higher_precedence_on_the_left(a: i32, op1: Token, b: i32, op2: Token, c: i32)
    requires
        op1 == Token::Star || op1 == Token::Slash || op1 == Token::Caret,
        op2 == Token::Plus || op2 == Token::Minus,
    ensures
        spec_parse_tokens(seq![Token::Number(a), op1, Token::Number(b), op2, Token::Number(c)])
            == Some(binary_node(op2, binary_node(op1, Expr::Number(a), Expr::Number(b)), Expr::Number(c))),
{
    let t = seq![Token::Number(a), op1, Token::Number(b), op2, Token::Number(c)];
    let la = Expr::Number(a);
    let lb = Expr::Number(b);
    let lc = Expr::Number(c);
    let inner = binary_node(op1, la, lb);
    let outer = binary_node(op2, inner, lc);
    assert(t.len() == 5);
    assert(fuel_bound(5, 0, 5) == 45nat);
    assert(spec_atom(t, 0, 42) == Some(Some((la, 1int))));
    assert(spec_atom(t, 2, 41) == Some(Some((lb, 3int))));
    if op1 == Token::Caret {
        assert(spec_power(t, 2, 42) == Some(Some((lb, 3int))));
        assert(spec_power(t, 0, 43) == Some(Some((inner, 3int))));
        assert(spec_term_tail(t, 3, inner, 43) == Some(Some((inner, 3int))));
        assert(spec_term(t, 0, 44) == Some(Some((inner, 3int))));
    } else {
        assert(spec_power(t, 0, 43) == Some(Some((la, 1int))));
        assert(spec_power(t, 2, 42) == Some(Some((lb, 3int))));
        assert(spec_term_tail(t, 3, inner, 42) == Some(Some((inner, 3int))));
        assert(spec_term_tail(t, 1, la, 43) == Some(Some((inner, 3int))));
        assert(spec_term(t, 0, 44) == Some(Some((inner, 3int))));
    }
    assert(spec_atom(t, 4, 41) == Some(Some((lc, 5int))));
    assert(spec_power(t, 4, 42) == Some(Some((lc, 5int))));
    assert(spec_term_tail(t, 5, lc, 42) == Some(Some((lc, 5int))));
    assert(spec_term(t, 4, 43) == Some(Some((lc, 5int))));
    assert(spec_sum_tail(t, 5, outer, 43) == Some(Some((outer, 5int))));
    assert(spec_sum_tail(t, 3, inner, 44) == Some(Some((outer, 5int))));
    assert(spec_sum(t, 0, 45) == Some(Some((outer, 5int))));
    assert(spec_parse_tokens(t) == Some(outer));
}

/// Parentheses override precedence: `a op1 ( b op2 c )` parses as
/// `a op1 (b op2 c)` even though `op1` binds tighter than `op2`. In
/// particular `2 * (3 + 4)` means `2 * (3 + 4)` as grouped, not
/// `(2 * 3) + 4`.
pub proof fn lemma_parentheses_group(a: i32, op1: Token, b: i32, op2: Token, c: i32)
    requires
        op1 == Token::Star || op1 == Token::Slash,
        op2 == Token::Plus || op2 == Token::Minus,
    ensures
        spec_parse_tokens(
            seq![
                Token::Number(a),
                op1,
                Token::LParen,
                Token::Number(b),
                op2,
                Token::Number(c),
                Token::RParen,
            ],
        ) == Some(binary_node(op1, Expr::Number(a), binary_node(op2, Expr::Number(b), Expr::Number(c)))),
{
    let t = seq![
        Token::Number(a),
        op1,
        Token::LParen,
        Token::Number(b),
        op2,
        Token::Number(c),
        Token::RParen,
    ];
    let la = Expr::Number(a);
    let lb = Expr::Number(b);
    let lc = Expr::Number(c);
    let inner = binary_node(op2, lb, lc);
    let outer = binary_node(op1, la, inner);
    assert(t.len() == 7);
    assert(fuel_bound(7, 0, 5) == 61nat);
    assert(spec_atom(t, 0, 58) == Some(Some((la, 1int))));
    assert(spec_power(t, 0, 59) == Some(Some((la, 1int))));
    assert(spec_atom(t, 3, 53) == Some(Some((lb, 4int))));
    assert(spec_power(t, 3, 54) == Some(Some((lb, 4int))));
    assert(spec_term_tail(t, 4, lb, 54) == Some(Some((lb, 4int))));
    assert(spec_term(t, 3, 55) == Some(Some((lb, 4int))));
    assert(spec_atom(t, 5, 52) == Some(Some((lc, 6int))));
    assert(spec_power(t, 5, 53) == Some(Some((lc, 6int))));
    assert(spec_term_tail(t, 6, lc, 53) == Some(Some((lc, 6int))));
    assert(spec_term(t, 5, 54) == Some(Some((lc, 6int))));
    assert(spec_sum_tail(t, 6, inner, 54) == Some(Some((inner, 6int))));
    assert(spec_sum_tail(t, 4, lb, 55) == Some(Some((inner, 6int))));
    assert(spec_sum(t, 3, 56) == Some(Some((inner, 6int))));
    assert(spec_atom(t, 2, 57) == Some(Some((inner, 7int))));
    assert(spec_power(t, 2, 58) == Some(Some((inner, 7int))));
    assert(spec_term_tail(t, 7, outer, 58) == Some(Some((outer, 7int))));
    assert(spec_term_tail(t, 1, la, 59) == Some(Some((outer, 7int))));
    assert(spec_term(t, 0, 60) == Some(Some((outer, 7int))));
    assert(spec_sum_tail(t, 7, outer, 60) == Some(Some((outer, 7int))));
    assert(spec_sum(t, 0, 61) == Some(Some((outer, 7int))));
    assert(spec_parse_tokens(t) == Some(outer));
}

/// An operator with no right operand is rejected: `a op` parses to
/// nothing, for every binary operator of the grammar, so the whole
/// parse reports a `SyntaxError` rather than a partial result.
pub proof fn lemma_operator_needs_right_operand(a: i32, op: Token)
    requires
        op == Token::Plus || op == Token::Minus || op == Token::Star || op == Token::Slash || op
            == Token::Caret,
    ensures
        spec_parse_tokens(seq![Token::Number(a), op]) == None::<Expr>,
{
    let t = seq![Token::Number(a), op];
    let la = Expr::Number(a);
    assert(t.len() == 2);
    assert(fuel_bound(2, 0, 5) == 21nat);
    assert(spec_atom(t, 0, 18) == Some(Some((la, 1int))));
    assert(spec_atom(t, 2, 17) == Some(None::<(Expr, int)>));
    assert(spec_power(t, 2, 18) == Some(None::<(Expr, int)>));
    if op == Token::Plus || op == Token::Minus {
        assert(spec_power(t, 0, 19) == Some(Some((la, 1int))));
        assert(spec_term_tail(t, 1, la, 19) == Some(Some((la, 1int))));
        assert(spec_term(t, 0, 20) == Some(Some((la, 1int))));
        assert(spec_term(t, 2, 19) == Some(None::<(Expr, int)>));
        assert(spec_sum_tail(t, 1, la, 20) == Some(None::<(Expr, int)>));
        assert(spec_sum(t, 0, 21) == Some(None::<(Expr, int)>));
    } else if op == Token::Star || op == Token::Slash {
        assert(spec_power(t, 0, 19) == Some(Some((la, 1int))));
        assert(spec_term_tail(t, 1, la, 19) == Some(None::<(Expr, int)>));
        assert(spec_term(t, 0, 20) == Some(None::<(Expr, int)>));
        assert(spec_sum(t, 0, 21) == Some(None::<(Expr, int)>));
    } else {
        assert(spec_power(t, 0, 19) == Some(None::<(Expr, int)>));
        assert(spec_term(t, 0, 20) == Some(None::<(Expr, int)>));
        assert(spec_sum(t, 0, 21) == Some(None::<(Expr, int)>));
    }
    assert(spec_parse_tokens(t) == None::<Expr>);
}

/// An unclosed parenthesis is rejected: `( a` parses to nothing, so
/// the whole parse reports a `SyntaxError`.
pub proof fn lemma_unbalanced_parenthesis(a: i32)
    ensures
        spec_parse_tokens(seq![Token::LParen, Token::Number(a)]) == None::<Expr>,
{
    let t = seq![Token::LParen, Token::Number(a)];
    let la = Expr::Number(a);
    assert(t.len() == 2);
    assert(fuel_bound(2, 0, 5) == 21nat);
    assert(spec_atom(t, 1, 14) == Some(Some((la, 2int))));
    assert(spec_power(t, 1, 15) == Some(Some((la, 2int))));
    assert(spec_term_tail(t, 2, la, 15) == Some(Some((la, 2int))));
    assert(spec_term(t, 1, 16) == Some(Some((la, 2int))));
    assert(spec_sum_tail(t, 2, la, 16) == Some(Some((la, 2int))));
    assert(spec_sum(t, 1, 17) == Some(Some((la, 2int))));
    assert(spec_atom(t, 0, 18) == Some(None::<(Expr, int)>));
    assert(spec_power(t, 0, 19) == Some(None::<(Expr, int)>));
    assert(spec_term(t, 0, 20) == Some(None::<(Expr, int)>));
    assert(spec_sum(t, 0, 21) == Some(None::<(Expr, int)>));
    assert(spec_parse_tokens(t) == None::<Expr>);
}

/// The power operator nests to the right: `a ^ b ^ c` parses as
/// `a ^ (b ^ c)`, so `2 ^ 3 ^ 2` means `2 ^ (3 ^ 2)`.
pub proof fn lemma_power_right_associative(a: i32, b: i32, c: i32)
    ensures
        spec_parse_tokens(
            seq![
                Token::Number(a),
                Token::Caret,
                Token::Number(b),
                Token::Caret,
                Token::Number(c),
            ],
        ) == Some(
            Expr::Power(
                Box::new(Expr::Number(a)),
                Box::new(Expr::Power(Box::new(Expr::Number(b)), Box::new(Expr::Number(c)))),
            ),
        ),
{
    let t = seq![Token::Number(a), Token::Caret, Token::Number(b), Token::Caret, Token::Number(c)];
    let la = Expr::Number(a);
    let lb = Expr::Number(b);
    let lc = Expr::Number(c);
    let inner = Expr::Power(Box::new(lb), Box::new(lc));
    let outer = Expr::Power(Box::new(la), Box::new(inner));
    assert(t.len() == 5);
    assert(fuel_bound(5, 0, 5) == 45nat);
    assert(spec_atom(t, 0, 42) == Some(Some((la, 1int))));
    assert(spec_atom(t, 2, 41) == Some(Some((lb, 3int))));
    assert(spec_atom(t, 4, 40) == Some(Some((lc, 5int))));
    assert(spec_power(t, 4, 41) == Some(Some((lc, 5int))));
    assert(spec_power(t, 2, 42) == Some(Some((inner, 5int))));
    assert(spec_power(t, 0, 43) == Some(Some((outer, 5int))));
    assert(spec_term_tail(t, 5, outer, 43) == Some(Some((outer, 5int))));
    assert(spec_term(t, 0, 44) == Some(Some((outer, 5int))));
    assert(spec_sum_tail(t, 5, outer, 44) == Some(Some((outer, 5int))));
    assert(spec_sum(t, 0, 45) == Some(Some((outer, 5int))));
    assert(spec_parse_tokens(t) == Some(outer));
}


/// The token rendering of an expression tree, fully parenthesized:
/// every operator node is wrapped in parentheses, so the rendering
/// carries the tree's grouping explicitly.
pub open spec fn toks_of(e: Expr) -> Seq<Token>
    decreases e,
{
    match e {
        Expr::Number(n) => seq![Token::Number(n)],
        Expr::Add(l, r) => seq![Token::LParen] + toks_of(*l) + seq![Token::Plus] + toks_of(*r)
            + seq![Token::RParen],
        Expr::Subtract(l, r) => seq![Token::LParen] + toks_of(*l) + seq![Token::Minus] + toks_of(*r)
            + seq![Token::RParen],
        Expr::Multiply(l, r) => seq![Token::LParen] + toks_of(*l) + seq![Token::Star] + toks_of(*r)
            + seq![Token::RParen],
        Expr::Divide(l, r) => seq![Token::LParen] + toks_of(*l) + seq![Token::Slash] + toks_of(*r)
            + seq![Token::RParen],
        Expr::Power(l, r) => seq![Token::LParen] + toks_of(*l) + seq![Token::Caret] + toks_of(*r)
            + seq![Token::RParen],
    }
}

/// The tokens between the parentheses of a rendered operator node.
pub open spec fn inner_toks(e: Expr) -> Seq<Token> {
    match e {
        Expr::Number(n) => Seq::empty(),
        Expr::Add(l, r) => toks_of(*l) + seq![Token::Plus] + toks_of(*r),
        Expr::Subtract(l, r) => toks_of(*l) + seq![Token::Minus] + toks_of(*r),
        Expr::Multiply(l, r) => toks_of(*l) + seq![Token::Star] + toks_of(*r),
        Expr::Divide(l, r) => toks_of(*l) + seq![Token::Slash] + toks_of(*r),
        Expr::Power(l, r) => toks_of(*l) + seq![Token::Caret] + toks_of(*r),
    }
}

/// A rendered operator node is its inner tokens between parentheses,
/// and every rendering is non-empty.
proof fn lemma_toks_of_node(e: Expr)
    ensures
        toks_of(e).len() >= 1,
        !(e is Number) ==> toks_of(e) == seq![Token::LParen] + inner_toks(e)
            + seq![Token::RParen],
    decreases e,
{
    match e {
        Expr::Number(n) => {},
        Expr::Add(l, r) => {
            lemma_toks_of_node(*l);
            lemma_toks_of_node(*r);
            assert(toks_of(e) =~= seq![Token::LParen] + inner_toks(e) + seq![Token::RParen]);
        },
        Expr::Subtract(l, r) => {
            lemma_toks_of_node(*l);
            lemma_toks_of_node(*r);
            assert(toks_of(e) =~= seq![Token::LParen] + inner_toks(e) + seq![Token::RParen]);
        },
        Expr::Multiply(l, r) => {
            lemma_toks_of_node(*l);
            lemma_toks_of_node(*r);
            assert(toks_of(e) =~= seq![Token::LParen] + inner_toks(e) + seq![Token::RParen]);
        },
        Expr::Divide(l, r) => {
            lemma_toks_of_node(*l);
            lemma_toks_of_node(*r);
            assert(toks_of(e) =~= seq![Token::LParen] + inner_toks(e) + seq![Token::RParen]);
        },
        Expr::Power(l, r) => {
            lemma_toks_of_node(*l);
            lemma_toks_of_node(*r);
            assert(toks_of(e) =~= seq![Token::LParen] + inner_toks(e) + seq![Token::RParen]);
        },
    }
}


/// A rendered tree is one `atom` of the grammar: wherever its tokens
/// stand in a sequence, parsing an atom there rebuilds exactly the tree
/// and stops right after it.
proof fn lemma_atom_complete(e: Expr, t: Seq<Token>, i: int, f: nat)
    requires
        0 <= i,
        i + toks_of(e).len() <= t.len(),
        t.subrange(i, i + toks_of(e).len() as int) == toks_of(e),
        f >= 8 * toks_of(e).len() + 1,
    ensures
        spec_atom(t, i, f) == Some(Some((e, i + toks_of(e).len() as int))),
    decreases e, 1int,
{
    lemma_toks_of_node(e);
    let whole = toks_of(e);
    let len_e = whole.len() as int;
    assert forall|k: int| 0 <= k < len_e implies t[i + k] == whole[k] by {
        assert(t.subrange(i, i + len_e)[k] == whole[k]);
    }
    match e {
        Expr::Number(n) => {
            assert(whole[0] == Token::Number(n));
            assert(t[i] == Token::Number(n));
        },
        _ => {
            let body = inner_toks(e);
            let b = body.len() as int;
            assert(len_e == b + 2);
            assert(whole[0] == Token::LParen);
            assert(t[i] == Token::LParen);
            assert(whole[b + 1] == Token::RParen);
            assert(t[i + 1 + b] == Token::RParen);
            assert forall|k: int| 0 <= k < b implies t.subrange(i + 1, i + 1 + b)[k] == body[k] by {
                assert(whole[1 + k] == body[k]);
                assert(t[i + (1 + k)] == whole[1 + k]);
            }
            assert(t.subrange(i + 1, i + 1 + b) =~= body);
            lemma_inner_sum_complete(e, t, i + 1, (f - 1) as nat);
            assert(spec_sum(t, i + 1, (f - 1) as nat) == Some(Some((e, i + 1 + b))));
        },
    }
}

/// Between its parentheses, a rendered operator node is one `sum` of
/// the grammar, closed off by the right parenthesis that follows it.
#[verifier::rlimit(100)]
#[verifier::spinoff_prover]
proof fn lemma_inner_sum_complete(e: Expr, t: Seq<Token>, i: int, f: nat)
    requires
        !(e is Number),
        0 <= i,
        i + inner_toks(e).len() < t.len(),
        t.subrange(i, i + inner_toks(e).len() as int) == inner_toks(e),
        t[i + inner_toks(e).len()] == Token::RParen,
        f >= 8 * inner_toks(e).len() + 5,
    ensures
        spec_sum(t, i, f) == Some(Some((e, i + inner_toks(e).len() as int))),
    decreases e, 0int,
{
    let body = inner_toks(e);
    let b = body.len() as int;
    assert forall|k: int| 0 <= k < b implies t[i + k] == body[k] by {
        assert(t.subrange(i, i + b)[k] == body[k]);
    }
    match e {
        Expr::Number(_) => {},
        Expr::Add(l, r) => {
            let lt = toks_of(*l);
            let rt = toks_of(*r);
            let ll = lt.len() as int;
            assert(body == lt + seq![Token::Plus] + rt);
            lemma_toks_of_node(*l);
            lemma_toks_of_node(*r);
            assert(body[ll] == Token::Plus);
            assert(t[i + ll] == Token::Plus);
            assert forall|k: int| 0 <= k < ll implies t.subrange(i, i + ll)[k] == lt[k] by {
                assert(body[k] == lt[k]);
                assert(t[i + k] == body[k]);
            }
            assert(t.subrange(i, i + ll) =~= lt);
            assert forall|k: int| 0 <= k < rt.len() as int implies t.subrange(
                i + ll + 1,
                i + b,
            )[k] == rt[k] by {
                assert(body[ll + 1 + k] == rt[k]);
                assert(t[i + (ll + 1 + k)] == body[ll + 1 + k]);
            }
            assert(t.subrange(i + ll + 1, i + b) =~= rt);
            lemma_atom_complete(*l, t, i, (f - 3) as nat);
            lemma_atom_complete(*r, t, i + ll + 1, (f - 4) as nat);
            assert(spec_power(t, i, (f - 2) as nat) == Some(Some((*l, i + ll))));
            assert(spec_term_tail(t, i + ll, *l, (f - 2) as nat) == Some(Some((*l, i + ll))));
            assert(spec_term(t, i, (f - 1) as nat) == Some(Some((*l, i + ll))));
            assert(spec_power(t, i + ll + 1, (f - 3) as nat) == Some(Some((*r, i + b))));
            assert(spec_term_tail(t, i + b, *r, (f - 3) as nat) == Some(Some((*r, i + b))));
            assert(spec_term(t, i + ll + 1, (f - 2) as nat) == Some(Some((*r, i + b))));
            assert(spec_sum_tail(t, i + b, e, (f - 2) as nat) == Some(Some((e, i + b))));
            assert(spec_sum_tail(t, i + ll, *l, (f - 1) as nat) == Some(Some((e, i + b))));
            assert(spec_sum(t, i, f) == Some(Some((e, i + b))));
        },
        Expr::Subtract(l, r) => {
            let lt = toks_of(*l);
            let rt = toks_of(*r);
            let ll = lt.len() as int;
            assert(body == lt + seq![Token::Minus] + rt);
            lemma_toks_of_node(*l);
            lemma_toks_of_node(*r);
            assert(body[ll] == Token::Minus);
            assert(t[i + ll] == Token::Minus);
            assert forall|k: int| 0 <= k < ll implies t.subrange(i, i + ll)[k] == lt[k] by {
                assert(body[k] == lt[k]);
                assert(t[i + k] == body[k]);
            }
            assert(t.subrange(i, i + ll) =~= lt);
            assert forall|k: int| 0 <= k < rt.len() as int implies t.subrange(
                i + ll + 1,
                i + b,
            )[k] == rt[k] by {
                assert(body[ll + 1 + k] == rt[k]);
                assert(t[i + (ll + 1 + k)] == body[ll + 1 + k]);
            }
            assert(t.subrange(i + ll + 1, i + b) =~= rt);
            lemma_atom_complete(*l, t, i, (f - 3) as nat);
            lemma_atom_complete(*r, t, i + ll + 1, (f - 4) as nat);
            assert(spec_power(t, i, (f - 2) as nat) == Some(Some((*l, i + ll))));
            assert(spec_term_tail(t, i + ll, *l, (f - 2) as nat) == Some(Some((*l, i + ll))));
            assert(spec_term(t, i, (f - 1) as nat) == Some(Some((*l, i + ll))));
            assert(spec_power(t, i + ll + 1, (f - 3) as nat) == Some(Some((*r, i + b))));
            assert(spec_term_tail(t, i + b, *r, (f - 3) as nat) == Some(Some((*r, i + b))));
            assert(spec_term(t, i + ll + 1, (f - 2) as nat) == Some(Some((*r, i + b))));
            assert(spec_sum_tail(t, i + b, e, (f - 2) as nat) == Some(Some((e, i + b))));
            assert(spec_sum_tail(t, i + ll, *l, (f - 1) as nat) == Some(Some((e, i + b))));
            assert(spec_sum(t, i, f) == Some(Some((e, i + b))));
        },
        Expr::Multiply(l, r) => {
            let lt = toks_of(*l);
            let rt = toks_of(*r);
            let ll = lt.len() as int;
            assert(body == lt + seq![Token::Star] + rt);
            lemma_toks_of_node(*l);
            lemma_toks_of_node(*r);
            assert(body[ll] == Token::Star);
            assert(t[i + ll] == Token::Star);
            assert forall|k: int| 0 <= k < ll implies t.subrange(i, i + ll)[k] == lt[k] by {
                assert(body[k] == lt[k]);
                assert(t[i + k] == body[k]);
            }
            assert(t.subrange(i, i + ll) =~= lt);
            assert forall|k: int| 0 <= k < rt.len() as int implies t.subrange(
                i + ll + 1,
                i + b,
            )[k] == rt[k] by {
                assert(body[ll + 1 + k] == rt[k]);
                assert(t[i + (ll + 1 + k)] == body[ll + 1 + k]);
            }
            assert(t.subrange(i + ll + 1, i + b) =~= rt);
            lemma_atom_complete(*l, t, i, (f - 3) as nat);
            lemma_atom_complete(*r, t, i + ll + 1, (f - 4) as nat);
            assert(spec_power(t, i, (f - 2) as nat) == Some(Some((*l, i + ll))));
            assert(spec_power(t, i + ll + 1, (f - 3) as nat) == Some(Some((*r, i + b))));
            assert(spec_term_tail(t, i + b, e, (f - 3) as nat) == Some(Some((e, i + b))));
            assert(spec_term_tail(t, i + ll, *l, (f - 2) as nat) == Some(Some((e, i + b))));
            assert(spec_term(t, i, (f - 1) as nat) == Some(Some((e, i + b))));
            assert(spec_sum_tail(t, i + b, e, (f - 1) as nat) == Some(Some((e, i + b))));
            assert(spec_sum(t, i, f) == Some(Some((e, i + b))));
        },
        Expr::Divide(l, r) => {
            let lt = toks_of(*l);
            let rt = toks_of(*r);
            let ll = lt.len() as int;
            assert(body == lt + seq![Token::Slash] + rt);
            lemma_toks_of_node(*l);
            lemma_toks_of_node(*r);
            assert(body[ll] == Token::Slash);
            assert(t[i + ll] == Token::Slash);
            assert forall|k: int| 0 <= k < ll implies t.subrange(i, i + ll)[k] == lt[k] by {
                assert(body[k] == lt[k]);
                assert(t[i + k] == body[k]);
            }
            assert(t.subrange(i, i + ll) =~= lt);
            assert forall|k: int| 0 <= k < rt.len() as int implies t.subrange(
                i + ll + 1,
                i + b,
            )[k] == rt[k] by {
                assert(body[ll + 1 + k] == rt[k]);
                assert(t[i + (ll + 1 + k)] == body[ll + 1 + k]);
            }
            assert(t.subrange(i + ll + 1, i + b) =~= rt);
            lemma_atom_complete(*l, t, i, (f - 3) as nat);
            lemma_atom_complete(*r, t, i + ll + 1, (f - 4) as nat);
            assert(spec_power(t, i, (f - 2) as nat) == Some(Some((*l, i + ll))));
            assert(spec_power(t, i + ll + 1, (f - 3) as nat) == Some(Some((*r, i + b))));
            assert(spec_term_tail(t, i + b, e, (f - 3) as nat) == Some(Some((e, i + b))));
            assert(spec_term_tail(t, i + ll, *l, (f - 2) as nat) == Some(Some((e, i + b))));
            assert(spec_term(t, i, (f - 1) as nat) == Some(Some((e, i + b))));
            assert(spec_sum_tail(t, i + b, e, (f - 1) as nat) == Some(Some((e, i + b))));
            assert(spec_sum(t, i, f) == Some(Some((e, i + b))));
        },
        Expr::Power(l, r) => {
            let lt = toks_of(*l);
            let rt = toks_of(*r);
            let ll = lt.len() as int;
            assert(body == lt + seq![Token::Caret] + rt);
            lemma_toks_of_node(*l);
            lemma_toks_of_node(*r);
            assert(body[ll] == Token::Caret);
            assert(t[i + ll] == Token::Caret);
            assert forall|k: int| 0 <= k < ll implies t.subrange(i, i + ll)[k] == lt[k] by {
                assert(body[k] == lt[k]);
                assert(t[i + k] == body[k]);
            }
            assert(t.subrange(i, i + ll) =~= lt);
            assert forall|k: int| 0 <= k < rt.len() as int implies t.subrange(
                i + ll + 1,
                i + b,
            )[k] == rt[k] by {
                assert(body[ll + 1 + k] == rt[k]);
                assert(t[i + (ll + 1 + k)] == body[ll + 1 + k]);
            }
            assert(t.subrange(i + ll + 1, i + b) =~= rt);
            lemma_atom_complete(*l, t, i, (f - 3) as nat);
            lemma_atom_complete(*r, t, i + ll + 1, (f - 4) as nat);
            assert(spec_power(t, i + ll + 1, (f - 3) as nat) == Some(Some((*r, i + b))));
            assert(spec_power(t, i, (f - 2) as nat) == Some(Some((e, i + b))));
            assert(spec_term_tail(t, i + b, e, (f - 2) as nat) == Some(Some((e, i + b))));
            assert(spec_term(t, i, (f - 1) as nat) == Some(Some((e, i + b))));
            assert(spec_sum_tail(t, i + b, e, (f - 1) as nat) == Some(Some((e, i + b))));
            assert(spec_sum(t, i, f) == Some(Some((e, i + b))));
        },
    }
}

/// The parse is complete over trees: the fully parenthesized rendering
/// of any expression tree parses back to exactly that tree. Rendering
/// and reparsing is the identity, and every tree is reachable.
pub proof fn lemma_rendering_reparses(e: Expr)
    ensures
        spec_parse_tokens(toks_of(e)) == Some(e),
{
    let t = toks_of(e);
    let len_e = t.len() as int;
    lemma_toks_of_node(e);
    assert(t.subrange(0, len_e) =~= t);
    lemma_atom_complete(e, t, 0, (8 * len_e + 2) as nat);
    assert(spec_power(t, 0, (8 * len_e + 3) as nat) == Some(Some((e, len_e))));
    assert(spec_term_tail(t, len_e, e, (8 * len_e + 3) as nat) == Some(Some((e, len_e))));
    assert(spec_term(t, 0, (8 * len_e + 4) as nat) == Some(Some((e, len_e))));
    assert(spec_sum_tail(t, len_e, e, (8 * len_e + 4) as nat) == Some(Some((e, len_e))));
    assert(spec_sum(t, 0, (8 * len_e + 5) as nat) == Some(Some((e, len_e))));
    assert(fuel_bound(len_e, 0, 5) == (8 * len_e + 5) as nat);
    assert(spec_parse_tokens(t) == Some(e));
}

} // verus!
