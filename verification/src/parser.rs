//! The syntactic layer: a token sequence becomes an expression tree.
//!
//! The grammar is parsed by recursive descent, one function per
//! precedence level. `+ - * /` fold to the left, so `7 - 3 - 2` parses
//! as `(7 - 3) - 2`; `^` nests to the right, so `2 ^ 3 ^ 2` parses as
//! `2 ^ (3 ^ 2)`.
//!
//! The mathematical definition of the parse is the family of spec
//! functions [`spec_sum`], [`spec_term`], [`spec_power`] and
//! [`spec_atom`]. Each takes a fuel argument that pays for one step of
//! descent per unit, which makes the mutual recursion visibly well
//! founded; `None` stands for exhausted fuel, `Some(None)` for a failed
//! parse, and `Some(Some((e, j)))` for success with tree `e` and next
//! position `j`. [`fuel_bound`] gives, for each level, fuel that is
//! always sufficient: the executable parser is proved to return the
//! definition's answer for every fuel at or above that bound.

use crate::ast::Expr;
use crate::error::EvalError;
use crate::token::spec_tokenize;
use crate::token::tokenize;
use crate::token::Token;
use vstd::prelude::*;

verus! {

/// The parser over token sequences.
///
/// All methods are associated functions; the struct itself carries no
/// state, since each parse is a pure function of its input.
pub struct ExprParser {}

/// Fuel that always suffices for the level with offset `c` starting at
/// position `i` of a token sequence of length `len`.
pub open spec fn fuel_bound(len: int, i: int, c: int) -> nat {
    (8 * (len - i) + c) as nat
}

/// The view of an executable level result: position as a mathematical
/// integer, failure as `Some(None)`.
pub open spec fn level_view(r: Option<(Expr, usize)>) -> Option<Option<(Expr, int)>> {
    match r {
        None => Some(None),
        Some(p) => Some(Some((p.0, p.1 as int))),
    }
}

/// `atom := number | '(' sum ')'`
pub open spec fn spec_atom(t: Seq<Token>, i: int, f: nat) -> Option<Option<(Expr, int)>>
    decreases f,
{
    if f == 0 {
        None
    } else if !(0 <= i < t.len()) {
        Some(None)
    } else {
        match t[i] {
            Token::Number(n) => Some(Some((Expr::Number(n), i + 1))),
            Token::LParen => match spec_sum(t, i + 1, (f - 1) as nat) {
                None => None,
                Some(None) => Some(None),
                Some(Some((e, j))) => if 0 <= j < t.len() && t[j] == Token::RParen {
                    Some(Some((e, j + 1)))
                } else {
                    Some(None)
                },
            },
            _ => Some(None),
        }
    }
}

/// `power := atom ('^' power)?`, nesting to the right.
pub open spec fn spec_power(t: Seq<Token>, i: int, f: nat) -> Option<Option<(Expr, int)>>
    decreases f,
{
    if f == 0 {
        None
    } else {
        match spec_atom(t, i, (f - 1) as nat) {
            None => None,
            Some(None) => Some(None),
            Some(Some((base, j))) => if 0 <= j < t.len() && t[j] == Token::Caret {
                match spec_power(t, j + 1, (f - 1) as nat) {
                    None => None,
                    Some(None) => Some(None),
                    Some(Some((exponent, k))) => Some(
                        Some((Expr::Power(Box::new(base), Box::new(exponent)), k)),
                    ),
                }
            } else {
                Some(Some((base, j)))
            },
        }
    }
}

/// `term := power (('*' | '/') power)*`
pub open spec fn spec_term(t: Seq<Token>, i: int, f: nat) -> Option<Option<(Expr, int)>>
    decreases f,
{
    if f == 0 {
        None
    } else {
        match spec_power(t, i, (f - 1) as nat) {
            None => None,
            Some(None) => Some(None),
            Some(Some((first, j))) => spec_term_tail(t, j, first, (f - 1) as nat),
        }
    }
}

/// Folds further `* /` operands onto `acc`, left to right.
pub open spec fn spec_term_tail(t: Seq<Token>, j: int, acc: Expr, f: nat) -> Option<
    Option<(Expr, int)>,
>
    decreases f,
{
    if f == 0 {
        None
    } else if 0 <= j < t.len() && (t[j] == Token::Star || t[j] == Token::Slash) {
        match spec_power(t, j + 1, (f - 1) as nat) {
            None => None,
            Some(None) => Some(None),
            Some(Some((rhs, k))) => {
                let node = if t[j] == Token::Star {
                    Expr::Multiply(Box::new(acc), Box::new(rhs))
                } else {
                    Expr::Divide(Box::new(acc), Box::new(rhs))
                };
                spec_term_tail(t, k, node, (f - 1) as nat)
            },
        }
    } else {
        Some(Some((acc, j)))
    }
}

/// `sum := term (('+' | '-') term)*`
pub open spec fn spec_sum(t: Seq<Token>, i: int, f: nat) -> Option<Option<(Expr, int)>>
    decreases f,
{
    if f == 0 {
        None
    } else {
        match spec_term(t, i, (f - 1) as nat) {
            None => None,
            Some(None) => Some(None),
            Some(Some((first, j))) => spec_sum_tail(t, j, first, (f - 1) as nat),
        }
    }
}

/// Folds further `+ -` operands onto `acc`, left to right.
pub open spec fn spec_sum_tail(t: Seq<Token>, j: int, acc: Expr, f: nat) -> Option<
    Option<(Expr, int)>,
>
    decreases f,
{
    if f == 0 {
        None
    } else if 0 <= j < t.len() && (t[j] == Token::Plus || t[j] == Token::Minus) {
        match spec_term(t, j + 1, (f - 1) as nat) {
            None => None,
            Some(None) => Some(None),
            Some(Some((rhs, k))) => {
                let node = if t[j] == Token::Plus {
                    Expr::Add(Box::new(acc), Box::new(rhs))
                } else {
                    Expr::Subtract(Box::new(acc), Box::new(rhs))
                };
                spec_sum_tail(t, k, node, (f - 1) as nat)
            },
        }
    } else {
        Some(Some((acc, j)))
    }
}

/// The parse of a whole token sequence: a `sum` that consumes every
/// token, or nothing.
pub open spec fn spec_parse_tokens(t: Seq<Token>) -> Option<Expr> {
    match spec_sum(t, 0, fuel_bound(t.len() as int, 0, 5)) {
        Some(Some((e, j))) => if j == t.len() {
            Some(e)
        } else {
            None
        },
        _ => None,
    }
}

/// The parse of a whole source string: its tokens, then a full `sum`.
/// A lexical error is passed through; a token sequence that is not a
/// complete `sum` is a `SyntaxError`.
pub open spec fn spec_parse(s: Seq<char>) -> Result<Expr, EvalError> {
    match spec_tokenize(s) {
        Err(e) => Err(e),
        Ok(toks) => match spec_parse_tokens(toks) {
            Some(e) => Ok(e),
            None => Err(EvalError::SyntaxError),
        },
    }
}

impl ExprParser {
    /// Parses one `atom` at position `i`.
    fn parse_atom(t: &Vec<Token>, i: usize) -> (r: Option<(Expr, usize)>)
        requires
            i <= t@.len(),
        ensures
            forall|f: nat|
                f >= fuel_bound(t@.len() as int, i as int, 1) ==> spec_atom(t@, i as int, f)
                    == level_view(r),
            r matches Some(p) ==> i < p.1 <= t@.len(),
        decreases t@.len() - i, 0int,
    {
        let ghost len = t@.len() as int;
        if i == t.len() {
            proof {
                assert forall|f: nat| f >= fuel_bound(len, i as int, 1) implies spec_atom(
                    t@,
                    i as int,
                    f,
                ) == level_view(None::<(Expr, usize)>) by {}
            }
            None
        } else {
            match t[i] {
                Token::Number(n) => {
                    proof {
                        assert forall|f: nat| f >= fuel_bound(len, i as int, 1) implies spec_atom(
                            t@,
                            i as int,
                            f,
                        ) == level_view(Some((Expr::Number(n), (i + 1) as usize))) by {}
                    }
                    Some((Expr::Number(n), i + 1))
                },
                Token::LParen => {
                    let inner = Self::parse_sum(t, i + 1);
                    let ghost ginner = inner;
                    match inner {
                        None => {
                            proof {
                                assert forall|f: nat|
                                    f >= fuel_bound(len, i as int, 1) implies spec_atom(
                                    t@,
                                    i as int,
                                    f,
                                ) == level_view(None::<(Expr, usize)>) by {
                                    assert((f - 1) as nat >= fuel_bound(len, i as int + 1, 5));
                                    assert(spec_sum(t@, i as int + 1, (f - 1) as nat)
                                        == level_view(ginner));
                                }
                            }
                            None
                        },
                        Some((e, j)) => {
                            let ghost ge = e;
                            if j < t.len() {
                                match t[j] {
                                    Token::RParen => {
                                        proof {
                                            assert forall|f: nat|
                                                f >= fuel_bound(len, i as int, 1) implies spec_atom(
                                                t@,
                                                i as int,
                                                f,
                                            ) == level_view(Some((ge, (j + 1) as usize))) by {
                                                assert((f - 1) as nat >= fuel_bound(
                                                    len,
                                                    i as int + 1,
                                                    5,
                                                ));
                                                assert(spec_sum(t@, i as int + 1, (f - 1) as nat)
                                                    == level_view(ginner));
                                            }
                                        }
                                        Some((e, j + 1))
                                    },
                                    _ => {
                                        proof {
                                            assert forall|f: nat|
                                                f >= fuel_bound(len, i as int, 1) implies spec_atom(
                                                t@,
                                                i as int,
                                                f,
                                            ) == level_view(None::<(Expr, usize)>) by {
                                                assert((f - 1) as nat >= fuel_bound(
                                                    len,
                                                    i as int + 1,
                                                    5,
                                                ));
                                                assert(spec_sum(t@, i as int + 1, (f - 1) as nat)
                                                    == level_view(ginner));
                                            }
                                        }
                                        None
                                    },
                                }
                            } else {
                                proof {
                                    assert forall|f: nat|
                                        f >= fuel_bound(len, i as int, 1) implies spec_atom(
                                        t@,
                                        i as int,
                                        f,
                                    ) == level_view(None::<(Expr, usize)>) by {
                                        assert((f - 1) as nat >= fuel_bound(len, i as int + 1, 5));
                                        assert(spec_sum(t@, i as int + 1, (f - 1) as nat)
                                            == level_view(ginner));
                                    }
                                }
                                None
                            }
                        },
                    }
                },
                _ => {
                    proof {
                        assert forall|f: nat| f >= fuel_bound(len, i as int, 1) implies spec_atom(
                            t@,
                            i as int,
                            f,
                        ) == level_view(None::<(Expr, usize)>) by {}
                    }
                    None
                },
            }
        }
    }

    /// Parses one `power` at position `i`.
    fn parse_power(t: &Vec<Token>, i: usize) -> (r: Option<(Expr, usize)>)
        requires
            i <= t@.len(),
        ensures
            forall|f: nat|
                f >= fuel_bound(t@.len() as int, i as int, 2) ==> spec_power(t@, i as int, f)
                    == level_view(r),
            r matches Some(p) ==> i < p.1 <= t@.len(),
        decreases t@.len() - i, 1int,
    {
        let ghost len = t@.len() as int;
        let ratom = Self::parse_atom(t, i);
        let ghost gatom = ratom;
        match ratom {
            None => {
                proof {
                    assert forall|f: nat| f >= fuel_bound(len, i as int, 2) implies spec_power(
                        t@,
                        i as int,
                        f,
                    ) == level_view(None::<(Expr, usize)>) by {
                        assert((f - 1) as nat >= fuel_bound(len, i as int, 1));
                        assert(spec_atom(t@, i as int, (f - 1) as nat) == level_view(gatom));
                    }
                }
                None
            },
            Some((base, j)) => {
                let ghost gbase = base;
                let caret = j < t.len() && (match t[j] {
                    Token::Caret => true,
                    _ => false,
                });
                if caret {
                    let rpow = Self::parse_power(t, j + 1);
                    let ghost gpow = rpow;
                    match rpow {
                        None => {
                            proof {
                                assert forall|f: nat|
                                    f >= fuel_bound(len, i as int, 2) implies spec_power(
                                    t@,
                                    i as int,
                                    f,
                                ) == level_view(None::<(Expr, usize)>) by {
                                    assert((f - 1) as nat >= fuel_bound(len, i as int, 1));
                                    assert(spec_atom(t@, i as int, (f - 1) as nat) == level_view(
                                        gatom,
                                    ));
                                    assert((f - 1) as nat >= fuel_bound(len, j as int + 1, 2));
                                    assert(spec_power(t@, j as int + 1, (f - 1) as nat)
                                        == level_view(gpow));
                                }
                            }
                            None
                        },
                        Some((exponent, k)) => {
                            let ghost gexp = exponent;
                            proof {
                                assert forall|f: nat|
                                    f >= fuel_bound(len, i as int, 2) implies spec_power(
                                    t@,
                                    i as int,
                                    f,
                                ) == level_view(
                                    Some((Expr::Power(Box::new(gbase), Box::new(gexp)), k)),
                                ) by {
                                    assert((f - 1) as nat >= fuel_bound(len, i as int, 1));
                                    assert(spec_atom(t@, i as int, (f - 1) as nat) == level_view(
                                        gatom,
                                    ));
                                    assert((f - 1) as nat >= fuel_bound(len, j as int + 1, 2));
                                    assert(spec_power(t@, j as int + 1, (f - 1) as nat)
                                        == level_view(gpow));
                                }
                            }
                            Some((Expr::Power(Box::new(base), Box::new(exponent)), k))
                        },
                    }
                } else {
                    proof {
                        assert forall|f: nat| f >= fuel_bound(len, i as int, 2) implies spec_power(
                            t@,
                            i as int,
                            f,
                        ) == level_view(Some((gbase, j))) by {
                            assert((f - 1) as nat >= fuel_bound(len, i as int, 1));
                            assert(spec_atom(t@, i as int, (f - 1) as nat) == level_view(gatom));
                        }
                    }
                    Some((base, j))
                }
            },
        }
    }

    /// Parses one `term` at position `i`.
    fn parse_term(t: &Vec<Token>, i: usize) -> (r: Option<(Expr, usize)>)
        requires
            i <= t@.len(),
        ensures
            forall|f: nat|
                f >= fuel_bound(t@.len() as int, i as int, 3) ==> spec_term(t@, i as int, f)
                    == level_view(r),
            r matches Some(p) ==> i < p.1 <= t@.len(),
        decreases t@.len() - i, 3int,
    {
        let ghost len = t@.len() as int;
        let rpow = Self::parse_power(t, i);
        let ghost gpow = rpow;
        match rpow {
            None => {
                proof {
                    assert forall|f: nat| f >= fuel_bound(len, i as int, 3) implies spec_term(
                        t@,
                        i as int,
                        f,
                    ) == level_view(None::<(Expr, usize)>) by {
                        assert((f - 1) as nat >= fuel_bound(len, i as int, 2));
                        assert(spec_power(t@, i as int, (f - 1) as nat) == level_view(gpow));
                    }
                }
                None
            },
            Some((first, j)) => {
                let ghost gfirst = first;
                let rtail = Self::parse_term_tail(t, j, first);
                let ghost gtail = rtail;
                proof {
                    assert forall|f: nat| f >= fuel_bound(len, i as int, 3) implies spec_term(
                        t@,
                        i as int,
                        f,
                    ) == level_view(gtail) by {
                        assert((f - 1) as nat >= fuel_bound(len, i as int, 2));
                        assert(spec_power(t@, i as int, (f - 1) as nat) == level_view(gpow));
                        assert((f - 1) as nat >= fuel_bound(len, j as int, 4));
                        assert(spec_term_tail(t@, j as int, gfirst, (f - 1) as nat) == level_view(
                            gtail,
                        ));
                    }
                }
                rtail
            },
        }
    }

    /// Folds further `* /` operands onto `acc`, left to right.
    fn parse_term_tail(t: &Vec<Token>, j: usize, acc: Expr) -> (r: Option<(Expr, usize)>)
        requires
            j <= t@.len(),
        ensures
            forall|f: nat|
                f >= fuel_bound(t@.len() as int, j as int, 4) ==> spec_term_tail(
                    t@,
                    j as int,
                    acc,
                    f,
                ) == level_view(r),
            r matches Some(p) ==> j <= p.1 <= t@.len(),
        decreases t@.len() - j, 2int,
    {
        let ghost len = t@.len() as int;
        let ghost gacc = acc;
        let op = j < t.len() && (match t[j] {
            Token::Star | Token::Slash => true,
            _ => false,
        });
        if op {
            let is_star = match t[j] {
                Token::Star => true,
                _ => false,
            };
            let rpow = Self::parse_power(t, j + 1);
            let ghost gpow = rpow;
            match rpow {
                None => {
                    proof {
                        assert forall|f: nat|
                            f >= fuel_bound(len, j as int, 4) implies spec_term_tail(
                            t@,
                            j as int,
                            gacc,
                            f,
                        ) == level_view(None::<(Expr, usize)>) by {
                            assert((f - 1) as nat >= fuel_bound(len, j as int + 1, 2));
                            assert(spec_power(t@, j as int + 1, (f - 1) as nat) == level_view(
                                gpow,
                            ));
                        }
                    }
                    None
                },
                Some((rhs, k)) => {
                    let node = if is_star {
                        Expr::Multiply(Box::new(acc), Box::new(rhs))
                    } else {
                        Expr::Divide(Box::new(acc), Box::new(rhs))
                    };
                    let ghost gnode = node;
                    let rtail = Self::parse_term_tail(t, k, node);
                    let ghost gtail = rtail;
                    proof {
                        assert forall|f: nat|
                            f >= fuel_bound(len, j as int, 4) implies spec_term_tail(
                            t@,
                            j as int,
                            gacc,
                            f,
                        ) == level_view(gtail) by {
                            assert((f - 1) as nat >= fuel_bound(len, j as int + 1, 2));
                            assert(spec_power(t@, j as int + 1, (f - 1) as nat) == level_view(
                                gpow,
                            ));
                            assert((f - 1) as nat >= fuel_bound(len, k as int, 4));
                            assert(spec_term_tail(t@, k as int, gnode, (f - 1) as nat)
                                == level_view(gtail));
                        }
                    }
                    rtail
                },
            }
        } else {
            proof {
                assert forall|f: nat| f >= fuel_bound(len, j as int, 4) implies spec_term_tail(
                    t@,
                    j as int,
                    gacc,
                    f,
                ) == level_view(Some((gacc, j))) by {}
            }
            Some((acc, j))
        }
    }

    /// Parses one `sum` at position `i`.
    fn parse_sum(t: &Vec<Token>, i: usize) -> (r: Option<(Expr, usize)>)
        requires
            i <= t@.len(),
        ensures
            forall|f: nat|
                f >= fuel_bound(t@.len() as int, i as int, 5) ==> spec_sum(t@, i as int, f)
                    == level_view(r),
            r matches Some(p) ==> i < p.1 <= t@.len(),
        decreases t@.len() - i, 5int,
    {
        let ghost len = t@.len() as int;
        let rterm = Self::parse_term(t, i);
        let ghost gterm = rterm;
        match rterm {
            None => {
                proof {
                    assert forall|f: nat| f >= fuel_bound(len, i as int, 5) implies spec_sum(
                        t@,
                        i as int,
                        f,
                    ) == level_view(None::<(Expr, usize)>) by {
                        assert((f - 1) as nat >= fuel_bound(len, i as int, 3));
                        assert(spec_term(t@, i as int, (f - 1) as nat) == level_view(gterm));
                    }
                }
                None
            },
            Some((first, j)) => {
                let ghost gfirst = first;
                let rtail = Self::parse_sum_tail(t, j, first);
                let ghost gtail = rtail;
                proof {
                    assert forall|f: nat| f >= fuel_bound(len, i as int, 5) implies spec_sum(
                        t@,
                        i as int,
                        f,
                    ) == level_view(gtail) by {
                        assert((f - 1) as nat >= fuel_bound(len, i as int, 3));
                        assert(spec_term(t@, i as int, (f - 1) as nat) == level_view(gterm));
                        assert((f - 1) as nat >= fuel_bound(len, j as int, 6));
                        assert(spec_sum_tail(t@, j as int, gfirst, (f - 1) as nat) == level_view(
                            gtail,
                        ));
                    }
                }
                rtail
            },
        }
    }

    /// Folds further `+ -` operands onto `acc`, left to right.
    fn parse_sum_tail(t: &Vec<Token>, j: usize, acc: Expr) -> (r: Option<(Expr, usize)>)
        requires
            j <= t@.len(),
        ensures
            forall|f: nat|
                f >= fuel_bound(t@.len() as int, j as int, 6) ==> spec_sum_tail(
                    t@,
                    j as int,
                    acc,
                    f,
                ) == level_view(r),
            r matches Some(p) ==> j <= p.1 <= t@.len(),
        decreases t@.len() - j, 4int,
    {
        let ghost len = t@.len() as int;
        let ghost gacc = acc;
        let op = j < t.len() && (match t[j] {
            Token::Plus | Token::Minus => true,
            _ => false,
        });
        if op {
            let is_plus = match t[j] {
                Token::Plus => true,
                _ => false,
            };
            let rterm = Self::parse_term(t, j + 1);
            let ghost gterm = rterm;
            match rterm {
                None => {
                    proof {
                        assert forall|f: nat|
                            f >= fuel_bound(len, j as int, 6) implies spec_sum_tail(
                            t@,
                            j as int,
                            gacc,
                            f,
                        ) == level_view(None::<(Expr, usize)>) by {
                            assert((f - 1) as nat >= fuel_bound(len, j as int + 1, 3));
                            assert(spec_term(t@, j as int + 1, (f - 1) as nat) == level_view(
                                gterm,
                            ));
                        }
                    }
                    None
                },
                Some((rhs, k)) => {
                    let node = if is_plus {
                        Expr::Add(Box::new(acc), Box::new(rhs))
                    } else {
                        Expr::Subtract(Box::new(acc), Box::new(rhs))
                    };
                    let ghost gnode = node;
                    let rtail = Self::parse_sum_tail(t, k, node);
                    let ghost gtail = rtail;
                    proof {
                        assert forall|f: nat|
                            f >= fuel_bound(len, j as int, 6) implies spec_sum_tail(
                            t@,
                            j as int,
                            gacc,
                            f,
                        ) == level_view(gtail) by {
                            assert((f - 1) as nat >= fuel_bound(len, j as int + 1, 3));
                            assert(spec_term(t@, j as int + 1, (f - 1) as nat) == level_view(
                                gterm,
                            ));
                            assert((f - 1) as nat >= fuel_bound(len, k as int, 6));
                            assert(spec_sum_tail(t@, k as int, gnode, (f - 1) as nat)
                                == level_view(gtail));
                        }
                    }
                    rtail
                },
            }
        } else {
            proof {
                assert forall|f: nat| f >= fuel_bound(len, j as int, 6) implies spec_sum_tail(
                    t@,
                    j as int,
                    gacc,
                    f,
                ) == level_view(Some((gacc, j))) by {}
            }
            Some((acc, j))
        }
    }

    /// Parses a whole token sequence as one expression.
    pub fn parse_tokens(t: &Vec<Token>) -> (r: Option<Expr>)
        ensures
            r == spec_parse_tokens(t@),
    {
        let len: usize = t.len();
        match Self::parse_sum(t, 0) {
            None => {
                proof {
                    assert(spec_sum(t@, 0, fuel_bound(t@.len() as int, 0, 5)) == level_view(
                        None::<(Expr, usize)>,
                    ));
                }
                None
            },
            Some((e, j)) => {
                proof {
                    assert(spec_sum(t@, 0, fuel_bound(t@.len() as int, 0, 5)) == level_view(
                        Some((e, j)),
                    ));
                }
                if j == len {
                    Some(e)
                } else {
                    None
                }
            },
        }
    }
}

impl Expr {
    /// Parses a source string into an expression tree.
    ///
    /// Returns `Ok` exactly on the strings that the grammar generates;
    /// `Err(NumberFormatError)` exactly where the first lexical fault is
    /// an integer literal beyond `i32::MAX`; `Err(SyntaxError)` on every
    /// other malformed input. Never panics.
    pub fn parse(input: &str) -> (r: Result<Expr, EvalError>)
        ensures
            r == spec_parse(input@),
    {
        match tokenize(input) {
            Err(e) => Err(e),
            Ok(toks) => match ExprParser::parse_tokens(&toks) {
                Some(e) => Ok(e),
                None => Err(EvalError::SyntaxError),
            },
        }
    }
}

} // verus!
